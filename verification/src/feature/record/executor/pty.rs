use vstd::prelude::*;

verus! {

/// A command run on a pseudo-terminal, interactively.
pub struct Pty {
    pub command: String,
    pub args: Vec<String>,
}

impl Pty {
    /// A pseudo-terminal run of `command` with `args`.
    pub fn new(command: &str, args: Vec<String>) -> (p: Pty)
        ensures
            p.command@ == command@,
            p.args == args,
    {
        Pty { command: command.to_owned(), args }
    }

    /// The mode name recorded for pseudo-terminal runs.
    pub fn mode(&self) -> (m: &'static str)
        ensures
            m@ == "pty"@,
    {
        "pty"
    }
}

// ---------------------------------------------------------------------------
// The session loop
// ---------------------------------------------------------------------------

/// What the session loop does next.
#[derive(Debug, Clone, Copy, PartialEq, Eq, Structural)]
pub enum SessionAction {
    /// Wait until the user's input or the command's output is ready.
    Poll,
    /// Ask whether the command still runs.
    CheckChild,
    /// Read the user's input and pass it to the command.
    ForwardInput,
    /// Read the command's output, echo it and keep it.
    ReadOutput,
    /// End the session.
    Finish,
}

/// What the session loop learned from its last action.
#[derive(Debug, Clone, Copy, PartialEq, Eq, Structural)]
pub enum SessionEvent {
    /// The wait ended: whether the terminal hung up or failed, and whether
    /// input and output are ready.
    Polled { hangup: bool, input_ready: bool, output_ready: bool },
    /// Whether the command still runs.
    ChildChecked { running: bool },
    /// Input was read (`read` bytes; none at its end or on a failure) and
    /// passed to the command (`written`).
    InputForwarded { read: usize, written: bool },
    /// Output was read (`read` bytes; none at its end or on a failure).
    OutputRead { read: usize },
}

/// What the last wait found ready and the loop has not served yet.
#[derive(Debug, Clone, Copy, PartialEq, Eq, Structural)]
pub struct SessionState {
    pub input_ready: bool,
    pub output_ready: bool,
}

/// The first of the ready ends to serve: input before output, else another wait.
pub open spec fn serve(s: SessionState) -> SessionAction {
    if s.input_ready {
        SessionAction::ForwardInput
    } else if s.output_ready {
        SessionAction::ReadOutput
    } else {
        SessionAction::Poll
    }
}

/// One turn of the session loop. A wait that reports a hang-up ends the
/// session; else the command is checked, and a command that has ended ends
/// it too. Then the input is served if it was ready, then the output; an end
/// of input or output, or input that could not be passed on, ends the session.
pub open spec fn next_session(s: SessionState, e: SessionEvent) -> (SessionState, SessionAction) {
    match e {
        SessionEvent::Polled { hangup, input_ready, output_ready } => if hangup {
            (SessionState { input_ready: false, output_ready: false }, SessionAction::Finish)
        } else {
            (SessionState { input_ready, output_ready }, SessionAction::CheckChild)
        },
        SessionEvent::ChildChecked { running } => if running {
            (s, serve(s))
        } else {
            (s, SessionAction::Finish)
        },
        SessionEvent::InputForwarded { read, written } => if read == 0 || !written {
            (s, SessionAction::Finish)
        } else {
            let t = SessionState { input_ready: false, output_ready: s.output_ready };
            (t, serve(t))
        },
        SessionEvent::OutputRead { read } => if read == 0 {
            (s, SessionAction::Finish)
        } else {
            (SessionState { input_ready: false, output_ready: false }, SessionAction::Poll)
        },
    }
}

impl SessionState {
    /// The state before the first wait: nothing ready.
    pub fn start() -> (s: SessionState)
        ensures
            !s.input_ready && !s.output_ready,
    {
        SessionState { input_ready: false, output_ready: false }
    }
}

/// The next state of the session loop and what it does next, after `event`.
pub fn session_step(state: SessionState, event: SessionEvent) -> (r: (SessionState, SessionAction))
    ensures
        r == next_session(state, event),
{
    match event {
        SessionEvent::Polled { hangup, input_ready, output_ready } => {
            if hangup {
                (SessionState { input_ready: false, output_ready: false }, SessionAction::Finish)
            } else {
                let t = SessionState { input_ready, output_ready };
                (t, SessionAction::CheckChild)
            }
        },
        SessionEvent::ChildChecked { running } => {
            if running {
                (state, serve_exec(state))
            } else {
                (state, SessionAction::Finish)
            }
        },
        SessionEvent::InputForwarded { read, written } => {
            if read == 0 || !written {
                (state, SessionAction::Finish)
            } else {
                let t = SessionState { input_ready: false, output_ready: state.output_ready };
                (t, serve_exec(t))
            }
        },
        SessionEvent::OutputRead { read } => {
            if read == 0 {
                (state, SessionAction::Finish)
            } else {
                (SessionState { input_ready: false, output_ready: false }, SessionAction::Poll)
            }
        },
    }
}

fn serve_exec(s: SessionState) -> (a: SessionAction)
    ensures
        a == serve(s),
{
    if s.input_ready {
        SessionAction::ForwardInput
    } else if s.output_ready {
        SessionAction::ReadOutput
    } else {
        SessionAction::Poll
    }
}

/// The session loop serves only what the last wait found ready, each end at
/// most once per wait, and ends only on a hang-up, an ended command, an end
/// of input or output, or input that could not be passed on.
pub proof fn law_session_serves_ready(s: SessionState, e: SessionEvent)
    ensures
        next_session(s, e).1 == SessionAction::ForwardInput ==> next_session(s, e).0.input_ready,
        next_session(s, e).1 == SessionAction::ReadOutput ==> next_session(s, e).0.output_ready,
        next_session(s, e).1 == SessionAction::Finish <==> match e {
            SessionEvent::Polled { hangup, .. } => hangup,
            SessionEvent::ChildChecked { running } => !running,
            SessionEvent::InputForwarded { read, written } => read == 0 || !written,
            SessionEvent::OutputRead { read } => read == 0,
        },
        e is InputForwarded && next_session(s, e).1 != SessionAction::Finish ==> !next_session(s, e).0.input_ready,
        e is OutputRead ==> next_session(s, e).1 != SessionAction::ForwardInput && next_session(s, e).1
            != SessionAction::ReadOutput,
{
}


/// The position of the first byte of `s` from `lo` to `hi` (inclusive), or
/// the length of `s` when there is none.
pub open spec fn first_in_range(s: Seq<u8>, lo: u8, hi: u8) -> int
    decreases s.len(),
{
    if s.len() == 0 {
        0
    } else if lo <= s[0] && s[0] <= hi {
        0
    } else {
        1 + first_in_range(s.drop_first(), lo, hi)
    }
}

/// The output with terminal escape sequences removed: CSI sequences
/// (`ESC [` up to a final byte from `0x40` to `0x7e`), OSC sequences
/// (`ESC ]` up to `BEL`), charset designations (`ESC (` or `ESC )` and one
/// more byte) and any other `ESC` with the byte after it. A sequence cut off
/// by the end of the output is dropped.
pub open spec fn ansi_stripped(v: Seq<u8>) -> Seq<u8>
    decreases v.len(),
{
    if v.len() == 0 {
        seq![]
    } else if v[0] != 0x1bu8 {
        seq![v[0]] + ansi_stripped(v.drop_first())
    } else if v.len() == 1 {
        seq![]
    } else if v[1] == 0x5bu8 {
        let rest = v.skip(2);
        let k = first_in_range(rest, 0x40u8, 0x7eu8);
        if k >= rest.len() {
            seq![]
        } else {
            proof {
                lemma_first_in_range_bound(rest, 0x40u8, 0x7eu8);
            }
            ansi_stripped(rest.skip(k + 1))
        }
    } else if v[1] == 0x5du8 {
        let rest = v.skip(2);
        let k = first_in_range(rest, 0x07u8, 0x07u8);
        if k >= rest.len() {
            seq![]
        } else {
            proof {
                lemma_first_in_range_bound(rest, 0x07u8, 0x07u8);
            }
            ansi_stripped(rest.skip(k + 1))
        }
    } else if v[1] == 0x28u8 || v[1] == 0x29u8 {
        if v.len() <= 3 {
            seq![]
        } else {
            ansi_stripped(v.skip(3))
        }
    } else {
        ansi_stripped(v.skip(2))
    }
}

/// `v` without any byte equal to `b`.
pub open spec fn without_byte(v: Seq<u8>, b: u8) -> Seq<u8>
    decreases v.len(),
{
    if v.len() == 0 {
        seq![]
    } else {
        without_byte(v.drop_last(), b) + if v.last() == b {
            seq![]
        } else {
            seq![v.last()]
        }
    }
}

/// What is kept of a pseudo-terminal session's output: carriage returns and
/// bells removed, then escape sequences stripped.
pub open spec fn cleaned_output(v: Seq<u8>) -> Seq<u8> {
    ansi_stripped(without_byte(without_byte(v, 0x0du8), 0x07u8))
}

pub proof fn lemma_first_in_range_bound(s: Seq<u8>, lo: u8, hi: u8)
    ensures
        0 <= first_in_range(s, lo, hi) <= s.len(),
        first_in_range(s, lo, hi) < s.len() ==> lo <= s[first_in_range(s, lo, hi)] <= hi,
        forall|j: int| 0 <= j < first_in_range(s, lo, hi) ==> !(lo <= #[trigger] s[j] && s[j] <= hi),
    decreases s.len(),
{
    if s.len() > 0 && !(lo <= s[0] && s[0] <= hi) {
        lemma_first_in_range_bound(s.drop_first(), lo, hi);
        assert forall|j: int| 0 <= j < first_in_range(s, lo, hi) implies !(lo <= #[trigger] s[j] && s[j] <= hi) by {
            if j > 0 {
                assert(s[j] == s.drop_first()[j - 1]);
            }
        }
    }
}

proof fn lemma_first_in_range_is(s: Seq<u8>, lo: u8, hi: u8, k: int)
    requires
        0 <= k <= s.len(),
        k < s.len() ==> lo <= s[k] <= hi,
        forall|j: int| 0 <= j < k ==> !(lo <= #[trigger] s[j] && s[j] <= hi),
    ensures
        first_in_range(s, lo, hi) == k,
    decreases s.len(),
{
    if s.len() > 0 && k > 0 {
        assert(!(lo <= s[0] && s[0] <= hi));
        assert forall|j: int| 0 <= j < k - 1 implies !(lo <= #[trigger] s.drop_first()[j] && s.drop_first()[j] <= hi) by {
            assert(s.drop_first()[j] == s[j + 1]);
        }
        lemma_first_in_range_is(s.drop_first(), lo, hi, k - 1);
    }
}

/// The position of the first byte of `v` from `start` on that lies between
/// `lo` and `hi`, or the length of `v`.
fn find_in_range(v: &Vec<u8>, start: usize, lo: u8, hi: u8) -> (k: usize)
    requires
        start <= v.len(),
    ensures
        start <= k <= v.len(),
        k - start == first_in_range(v@.skip(start as int), lo, hi),
{
    let mut i = start;
    while i < v.len() && !(lo <= v[i] && v[i] <= hi)
        invariant
            start <= i <= v.len(),
            forall|j: int| start <= j < i ==> !(lo <= #[trigger] v@[j] && v@[j] <= hi),
        decreases v.len() - i,
    {
        i = i + 1;
    }
    proof {
        let s = v@.skip(start as int);
        assert forall|j: int| 0 <= j < i - start implies !(lo <= #[trigger] s[j] && s[j] <= hi) by {
            assert(s[j] == v@[start + j]);
        }
        if i < v.len() {
            assert(s[i - start] == v@[i as int]);
        }
        lemma_first_in_range_is(s, lo, hi, i - start);
    }
    i
}

/// The output with terminal escape sequences removed.
pub fn strip_ansi(v: Vec<u8>) -> (out: Vec<u8>)
    ensures
        out@ == ansi_stripped(v@),
{
    let mut out: Vec<u8> = Vec::new();
    let mut i: usize = 0;
    let n = v.len();
    assert(v@.skip(0) =~= v@);
    while i < n
        invariant
            n == v.len(),
            i <= n,
            ansi_stripped(v@) == out@ + ansi_stripped(v@.skip(i as int)),
        decreases n - i,
    {
        let ghost rest = v@.skip(i as int);
        let ghost o = out@;
        if v[i] != 0x1b {
            out.push(v[i]);
            assert(rest.drop_first() =~= v@.skip(i + 1));
            assert(o + (seq![rest[0]] + ansi_stripped(rest.drop_first())) =~= out@ + ansi_stripped(v@.skip(i + 1)));
            i = i + 1;
        } else if i + 1 >= n {
            assert(ansi_stripped(rest) =~= Seq::<u8>::empty());
            assert(out@ + ansi_stripped(v@.skip(n as int)) =~= out@);
            i = n;
        } else if v[i + 1] == 0x5b || v[i + 1] == 0x5d {
            let (lo, hi) = if v[i + 1] == 0x5b { (0x40u8, 0x7eu8) } else { (0x07u8, 0x07u8) };
            assert(rest.skip(2) =~= v@.skip(i + 2));
            let k = find_in_range(&v, i + 2, lo, hi);
            if k >= n {
                assert(out@ + ansi_stripped(v@.skip(n as int)) =~= out@);
                i = n;
            } else {
                assert(v@.skip(i + 2).skip(k - i - 2 + 1) =~= v@.skip(k + 1));
                i = k + 1;
            }
        } else if v[i + 1] == 0x28 || v[i + 1] == 0x29 {
            if n - i <= 3 {
                assert(out@ + ansi_stripped(v@.skip(n as int)) =~= out@);
                i = n;
            } else {
                assert(rest.skip(3) =~= v@.skip(i + 3));
                i = i + 3;
            }
        } else {
            assert(rest.skip(2) =~= v@.skip(i + 2));
            i = i + 2;
        }
    }
    assert(out@ + ansi_stripped(v@.skip(n as int)) =~= out@);
    out
}

/// `v` without any byte equal to `b`.
pub fn remove_byte(v: &Vec<u8>, b: u8) -> (out: Vec<u8>)
    ensures
        out@ == without_byte(v@, b),
{
    let mut out: Vec<u8> = Vec::new();
    let mut i: usize = 0;
    assert(v@.take(0) =~= Seq::<u8>::empty());
    while i < v.len()
        invariant
            i <= v.len(),
            out@ == without_byte(v@.take(i as int), b),
        decreases v.len() - i,
    {
        assert(v@.take(i + 1).drop_last() =~= v@.take(i as int));
        assert(v@.take(i + 1).last() == v@[i as int]);
        if v[i] != b {
            out.push(v[i]);
        }
        i = i + 1;
        assert(out@ =~= without_byte(v@.take(i as int), b));
    }
    assert(v@.take(v.len() as int) =~= v@);
    out
}

/// What is kept of a pseudo-terminal session's output.
pub fn clean_output(v: Vec<u8>) -> (out: Vec<u8>)
    ensures
        out@ == cleaned_output(v@),
{
    let a = remove_byte(&v, 0x0d);
    let b = remove_byte(&a, 0x07);
    strip_ansi(b)
}


// ---------------------------------------------------------------------------
// Laws of cleaned output
// ---------------------------------------------------------------------------

/// Every byte kept by stripping is a byte of the input other than `ESC`.
proof fn lemma_ansi_stripped_bytes(v: Seq<u8>)
    ensures
        forall|i: int| 0 <= i < ansi_stripped(v).len() ==> #[trigger] ansi_stripped(v)[i] != 0x1bu8 && v.contains(
            ansi_stripped(v)[i],
        ),
        ansi_stripped(v).len() <= v.len(),
    decreases v.len(),
{
    let out = ansi_stripped(v);
    if v.len() == 0 {
    } else if v[0] != 0x1bu8 {
        let rest = v.drop_first();
        lemma_ansi_stripped_bytes(rest);
        assert forall|i: int| 0 <= i < out.len() implies #[trigger] out[i] != 0x1bu8 && v.contains(out[i]) by {
            if i == 0 {
                assert(out[0] == v[0]);
            } else {
                assert(out[i] == ansi_stripped(rest)[i - 1]);
                let j = choose|j: int| 0 <= j < rest.len() && rest[j] == out[i];
                assert(v[j + 1] == rest[j]);
            }
        }
    } else if v.len() == 1 {
    } else {
        let t = if v[1] == 0x5bu8 || v[1] == 0x5du8 {
            let rest = v.skip(2);
            let k = if v[1] == 0x5bu8 {
                first_in_range(rest, 0x40u8, 0x7eu8)
            } else {
                first_in_range(rest, 0x07u8, 0x07u8)
            };
            lemma_first_in_range_bound(rest, 0x40u8, 0x7eu8);
            lemma_first_in_range_bound(rest, 0x07u8, 0x07u8);
            if k >= rest.len() {
                v.skip(v.len() as int)
            } else {
                rest.skip(k + 1)
            }
        } else if v[1] == 0x28u8 || v[1] == 0x29u8 {
            if v.len() <= 3 {
                v.skip(v.len() as int)
            } else {
                v.skip(3)
            }
        } else {
            v.skip(2)
        };
        assert(t.len() < v.len());
        lemma_ansi_stripped_bytes(t);
        assert(out == ansi_stripped(t) || out.len() == 0);
        assert forall|i: int| 0 <= i < out.len() implies #[trigger] out[i] != 0x1bu8 && v.contains(out[i]) by {
            let j = choose|j: int| 0 <= j < t.len() && t[j] == out[i];
            let off = v.len() - t.len();
            assert(t[j] == v[j + off]);
        }
    }
}

/// Output without `ESC` bytes is left as it is by stripping.
proof fn lemma_ansi_stripped_plain(v: Seq<u8>)
    requires
        forall|i: int| 0 <= i < v.len() ==> v[i] != 0x1bu8,
    ensures
        ansi_stripped(v) == v,
    decreases v.len(),
{
    if v.len() > 0 {
        lemma_ansi_stripped_plain(v.drop_first());
        assert(seq![v[0]] + v.drop_first() =~= v);
    }
}

/// `without_byte` drops exactly the bytes equal to `b`.
proof fn lemma_without_byte(v: Seq<u8>, b: u8)
    ensures
        forall|i: int| 0 <= i < without_byte(v, b).len() ==> #[trigger] without_byte(v, b)[i] != b && v.contains(
            without_byte(v, b)[i],
        ),
    decreases v.len(),
{
    if v.len() > 0 {
        let dl = v.drop_last();
        lemma_without_byte(dl, b);
        let out = without_byte(v, b);
        assert forall|i: int| 0 <= i < out.len() implies #[trigger] out[i] != b && v.contains(out[i]) by {
            if i < without_byte(dl, b).len() {
                assert(out[i] == without_byte(dl, b)[i]);
                let j = choose|j: int| 0 <= j < dl.len() && dl[j] == out[i];
                assert(v[j] == dl[j]);
            } else {
                assert(out[i] == v.last());
                assert(v[v.len() - 1] == v.last());
            }
        }
    }
}

/// What is kept of a pseudo-terminal session holds no escape (`ESC`),
/// carriage return or bell byte, and cleaning it again changes nothing.
pub proof fn law_cleaned_output(v: Seq<u8>)
    ensures
        forall|i: int| 0 <= i < cleaned_output(v).len() ==> {
            let b = #[trigger] cleaned_output(v)[i];
            b != 0x1bu8 && b != 0x0du8 && b != 0x07u8
        },
        cleaned_output(cleaned_output(v)) == cleaned_output(v),
{
    let a = without_byte(v, 0x0du8);
    let b = without_byte(a, 0x07u8);
    let c = ansi_stripped(b);
    lemma_without_byte(v, 0x0du8);
    lemma_without_byte(a, 0x07u8);
    lemma_ansi_stripped_bytes(b);
    assert forall|i: int| 0 <= i < c.len() implies {
        let x = #[trigger] c[i];
        x != 0x1bu8 && x != 0x0du8 && x != 0x07u8
    } by {
        let j = choose|j: int| 0 <= j < b.len() && b[j] == c[i];
        assert(b[j] != 0x07u8);
        let k = choose|k: int| 0 <= k < a.len() && a[k] == b[j];
        assert(a[k] != 0x0du8);
    }
    lemma_without_byte_absent(c, 0x0du8);
    lemma_without_byte_absent(c, 0x07u8);
    lemma_ansi_stripped_plain(c);
}

/// Dropping a byte that does not occur changes nothing.
proof fn lemma_without_byte_absent(v: Seq<u8>, b: u8)
    requires
        forall|i: int| 0 <= i < v.len() ==> v[i] != b,
    ensures
        without_byte(v, b) == v,
    decreases v.len(),
{
    if v.len() > 0 {
        lemma_without_byte_absent(v.drop_last(), b);
        assert(v.drop_last().push(v.last()) =~= v);
    }
}

/// Stripping escape sequences keeps only bytes of the output, none of them
/// `ESC`, and never lengthens it; output without `ESC` is left as it is, so
/// stripping twice changes nothing.
pub proof fn law_strip_ansi(v: Seq<u8>)
    ensures
        ansi_stripped(v).len() <= v.len(),
        forall|i: int| 0 <= i < ansi_stripped(v).len() ==> #[trigger] ansi_stripped(v)[i] != 0x1bu8 && v.contains(
            ansi_stripped(v)[i],
        ),
        (forall|i: int| 0 <= i < v.len() ==> v[i] != 0x1bu8) ==> ansi_stripped(v) == v,
        ansi_stripped(ansi_stripped(v)) == ansi_stripped(v),
{
    lemma_ansi_stripped_bytes(v);
    if forall|i: int| 0 <= i < v.len() ==> v[i] != 0x1bu8 {
        lemma_ansi_stripped_plain(v);
    }
    lemma_ansi_stripped_plain(ansi_stripped(v));
}

} // verus!
