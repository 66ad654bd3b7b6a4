//! Which system program plays the raw PCM: the backends in order of
//! preference, and the pick among those found on the `PATH`.

use vstd::prelude::*;

verus! {

/// Number of known player backends.
pub const N_BACKENDS: usize = 3;

/// Program of backend `i`: `aplay` (ALSA), `play` (sox), `paplay` (PulseAudio).
pub open spec fn backend_program(i: int) -> Seq<char> {
    if i == 0 {
        "aplay"@
    } else if i == 1 {
        "play"@
    } else {
        "paplay"@
    }
}

/// Arguments of backend `i`: each reads mono `s16le` at 44100 Hz from stdin.
pub open spec fn backend_args(i: int) -> Seq<Seq<char>> {
    if i == 0 {
        seq!["-q"@, "-f"@, "S16_LE"@, "-c"@, "1"@, "-r"@, "44100"@, "-t"@, "raw"@]
    } else if i == 1 {
        seq!["-q"@, "-t"@, "raw"@, "-r"@, "44100"@, "-e"@, "signed"@, "-b"@, "16"@, "-c"@, "1"@, "-"@]
    } else {
        seq!["--raw"@, "--format=s16le"@, "--rate=44100"@, "--channels=1"@]
    }
}

/// The first backend, in order of preference, that `on_path` marks as found.
pub open spec fn first_found(on_path: Seq<bool>) -> Option<int> {
    if on_path.len() > 0 && on_path[0] {
        Some(0)
    } else if on_path.len() > 1 && on_path[1] {
        Some(1)
    } else if on_path.len() > 2 && on_path[2] {
        Some(2)
    } else {
        None
    }
}

pub open spec fn views(v: Seq<String>) -> Seq<Seq<char>> {
    v.map_values(|s: String| s@)
}

/// The program names of the backends, in order of preference.
pub fn backend_programs() -> (r: Vec<String>)
    ensures
        r@.len() == N_BACKENDS,
        forall|i: int| 0 <= i < N_BACKENDS ==> #[trigger] r@[i]@ == backend_program(i),
{
    let mut v: Vec<String> = Vec::new();
    v.push(String::from_str("aplay"));
    v.push(String::from_str("play"));
    v.push(String::from_str("paplay"));
    v
}

fn push_args(v: &mut Vec<String>, args: &[&str])
    ensures
        views(final(v)@) == views(old(v)@) + args@.map_values(|s: &str| s@),
{
    let ghost start = views(v@);
    let mut i: usize = 0;
    while i < args.len()
        invariant
            i <= args@.len(),
            views(v@) == start + args@.take(i as int).map_values(|s: &str| s@),
        decreases args@.len() - i,
    {
        let ghost prev = v@;
        let item = String::from_str(args[i]);
        v.push(item);
        proof {
            assert(views(v@) =~= views(prev).push(args@[i as int]@));
            assert(args@.take(i + 1).map_values(|s: &str| s@) =~= args@.take(i as int).map_values(
                |s: &str| s@,
            ).push(args@[i as int]@));
            assert(views(v@) =~= start + args@.take(i + 1).map_values(|s: &str| s@));
        }
        i = i + 1;
    }
    assert(args@.take(args@.len() as int) =~= args@);
}

/// Picks the raw-PCM player: the first backend, in order of preference, that
/// `on_path[i]` says is on the `PATH` (the order of `backend_programs`).
pub fn pick_player(on_path: &[bool]) -> (r: Option<(String, Vec<String>)>)
    ensures
        match first_found(on_path@) {
            Some(i) => r matches Some((p, a)) && p@ == backend_program(i) && views(a@)
                == backend_args(i),
            None => r is None,
        },
{
    let n = on_path.len();
    let mut args: Vec<String> = Vec::new();
    if n > 0 && on_path[0] {
        let a: [&str; 9] = ["-q", "-f", "S16_LE", "-c", "1", "-r", "44100", "-t", "raw"];
        push_args(&mut args, &a);
        assert(views(args@) =~= backend_args(0));
        Some((String::from_str("aplay"), args))
    } else if n > 1 && on_path[1] {
        let a: [&str; 12] = ["-q", "-t", "raw", "-r", "44100", "-e", "signed", "-b", "16", "-c", "1", "-"];
        push_args(&mut args, &a);
        assert(views(args@) =~= backend_args(1));
        Some((String::from_str("play"), args))
    } else if n > 2 && on_path[2] {
        let a: [&str; 4] = ["--raw", "--format=s16le", "--rate=44100", "--channels=1"];
        push_args(&mut args, &a);
        assert(views(args@) =~= backend_args(2));
        Some((String::from_str("paplay"), args))
    } else {
        None
    }
}

} // verus!
