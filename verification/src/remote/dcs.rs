//! The introducer that `tmux -CC` prints before the first control-mode line.
use vstd::prelude::*;
use vstd::slice::*;

verus! {

/// The introducer: `ESC P 1000 p`.
pub open spec fn intro() -> Seq<u8> {
    seq![0x1bu8, 0x50, 0x31, 0x30, 0x30, 0x30, 0x70]
}

/// Length of the introducer.
pub const INTRO_LEN: usize = 7;

fn intro_byte(i: usize) -> (b: u8)
    requires
        i < INTRO_LEN,
    ensures
        b == intro()[i as int],
{
    if i == 0 {
        0x1b
    } else if i == 1 {
        0x50
    } else if i == 2 {
        0x31
    } else if i == 6 {
        0x70
    } else {
        0x30
    }
}

/// Whether a stream may still turn out to start with the introducer: it is a proper prefix of it.
pub open spec fn undecided(stream: Seq<u8>) -> bool {
    stream.len() < intro().len() && stream == intro().take(stream.len() as int)
}

/// What is left of a stream without the introducer. A stream that only starts like the introducer
/// is data; nothing is passed on while that is open.
pub open spec fn stripped(stream: Seq<u8>) -> Seq<u8> {
    if undecided(stream) {
        Seq::empty()
    } else if stream.len() >= intro().len() && stream.take(intro().len() as int) == intro() {
        stream.skip(intro().len() as int)
    } else {
        stream
    }
}

/// Strips the introducer at the start of a stream, recognized across chunk boundaries. It does not
/// look for the string terminator: reply bodies may hold `ESC \`, and the protocol's goodbye is
/// the `%exit` notification.
pub struct DcsFilter {
    /// Bytes of the introducer that were seen; means something only while `intro_active`.
    intro_matched: usize,
    /// Still at the start of the stream.
    intro_active: bool,
}

/// The mathematical value of a [`DcsFilter`]: the held back start of the stream, while it is
/// undecided.
pub type DcsView = Option<Seq<u8>>;

/// What a filter passes on of a chunk.
pub open spec fn passed(f: DcsView, bytes: Seq<u8>) -> Seq<u8> {
    match f {
        Some(held) => stripped(held + bytes),
        None => bytes,
    }
}

/// A filter after a chunk.
pub open spec fn fed(f: DcsView, bytes: Seq<u8>) -> DcsView {
    match f {
        Some(held) => if undecided(held + bytes) {
            Some(held + bytes)
        } else {
            None
        },
        None => None,
    }
}

impl DcsFilter {
    pub closed spec fn view(&self) -> DcsView {
        if self.intro_active {
            Some(intro().take(self.intro_matched as int))
        } else {
            None
        }
    }

    pub closed spec fn wf(&self) -> bool {
        self.intro_active ==> self.intro_matched < INTRO_LEN
    }

    pub fn new() -> (f: Self)
        ensures
            f@ == Some(Seq::<u8>::empty()),
            f.wf(),
    {
        let f = DcsFilter { intro_matched: 0, intro_active: true };
        assert(intro().take(0) =~= Seq::empty());
        f
    }

    /// Filters one chunk and returns the bytes for the parser.
    pub fn feed(&mut self, bytes: &[u8]) -> (out: Vec<u8>)
        requires
            old(self).wf(),
        ensures
            out@ == passed(old(self)@, bytes@),
            final(self)@ == fed(old(self)@, bytes@),
            final(self).wf(),
    {
        let mut out: Vec<u8> = Vec::new();
        if !self.intro_active {
            out.extend_from_slice(bytes);
            assert(out@ =~= bytes@);
            return out;
        }
        let ghost held = intro().take(self.intro_matched as int);
        let ghost all = held + bytes@;
        let start: usize = self.intro_matched;
        let mut i: usize = 0;
        while i < bytes.len()
            invariant
                i <= bytes@.len(),
                start + i < INTRO_LEN,
                self.intro_active,
                self.intro_matched == start + i,
                start == old(self).intro_matched,
                old(self).intro_active,
                out@.len() == 0,
                held == intro().take(start as int),
                all == held + bytes@,
                forall|j: int| 0 <= j < start + i ==> #[trigger] all[j] == intro()[j],
            decreases bytes@.len() - i,
        {
            let b: u8 = bytes[i];
            assert(all[start + i] == b);
            if b == intro_byte(self.intro_matched) {
                self.intro_matched = self.intro_matched + 1;
                if self.intro_matched == INTRO_LEN {
                    self.intro_active = false;
                    out.extend_from_slice(slice_subrange(bytes, i + 1, bytes.len()));
                    assert(all.take(7) =~= intro());
                    assert(out@ =~= all.skip(7));
                    return out;
                }
                i = i + 1;
            } else {
                // What matched was data.
                let n: usize = self.intro_matched;
                self.intro_active = false;
                let mut k: usize = 0;
                while k < n
                    invariant
                        k <= n,
                        n < INTRO_LEN,
                        out@ =~= intro().take(k as int),
                    decreases n - k,
                {
                    out.push(intro_byte(k));
                    k = k + 1;
                }
                out.extend_from_slice(slice_subrange(bytes, i, bytes.len()));
                assert(out@ =~= all);
                assert(!undecided(all)) by {
                    if undecided(all) {
                        assert(intro().take(all.len() as int)[start + i] == all[start + i]);
                    }
                }
                assert(!(all.len() >= 7 && all.take(7) == intro())) by {
                    if all.len() >= 7 && all.take(7) == intro() {
                        assert(all.take(7)[start + i] == all[start + i]);
                    }
                }
                return out;
            }
        }
        assert(all =~= intro().take(all.len() as int));
        assert(out@ =~= Seq::empty());
        out
    }
}

/// Filtering a stream in two chunks passes on what filtering it at once does, and leaves the
/// filter in the same state.
pub proof fn filtering_in_chunks_is_filtering_at_once(f: DcsView, a: Seq<u8>, b: Seq<u8>)
    requires
        f matches Some(held) ==> undecided(held),
    ensures
        passed(f, a) + passed(fed(f, a), b) == passed(f, a + b),
        fed(fed(f, a), b) == fed(f, a + b),
{
    match f {
        Some(held) => {
            let all = held + a + b;
            assert(held + (a + b) =~= all);
            if undecided(held + a) {
                assert(passed(f, a) + passed(fed(f, a), b) =~= passed(f, a + b));
            } else {
                let n = held.len() + a.len();
                assert(!undecided(all)) by {
                    if undecided(all) {
                        assert(held + a =~= intro().take(n as int)) by {
                            assert forall|i: int| 0 <= i < n implies (held + a)[i] == intro()[i] by {
                                assert(all[i] == intro().take(all.len() as int)[i]);
                            }
                        }
                    }
                }
                if n >= 7 {
                    assert(all.take(7) =~= (held + a).take(7));
                    if (held + a).take(7) == intro() {
                        assert((held + a).skip(7) + b =~= all.skip(7));
                    } else {
                        assert(held + a + b =~= all);
                    }
                } else {
                    if all.len() >= 7 && all.take(7) == intro() {
                        assert(held + a =~= intro().take(n as int)) by {
                            assert forall|i: int| 0 <= i < n implies (held + a)[i] == intro()[i] by {
                                assert(all[i] == all.take(7)[i]);
                            }
                        }
                    }
                    assert((held + a) + b =~= all);
                }
            }
        },
        None => {
            assert(a + b =~= a + b);
        },
    }
}

/// A stream that starts with the introducer loses it and nothing else.
pub proof fn the_introducer_is_stripped(rest: Seq<u8>)
    ensures
        passed(Some(Seq::empty()), intro() + rest) == rest,
{
    let s = Seq::<u8>::empty() + (intro() + rest);
    assert(s.take(7) =~= intro());
    assert(s.skip(7) =~= rest);
}

/// The introducer is `ESC P 1000 p`. A stream that starts otherwise passes whole, be it that only
/// its start is like the introducer's.
pub proof fn other_streams_pass_unchanged(stream: Seq<u8>, k: int)
    requires
        0 <= k < stream.len(),
        k < 7,
        stream[k] != seq![0x1bu8, 0x50, 0x31, 0x30, 0x30, 0x30, 0x70][k],
    ensures
        passed(Some(Seq::empty()), stream) == stream,
{
    let s = Seq::<u8>::empty() + stream;
    assert(s =~= stream);
    assert(s.len() < 7 ==> intro().take(s.len() as int)[k] == intro()[k]);
    assert(s.len() >= 7 ==> s.take(7)[k] == s[k]);
}

} // verus!
