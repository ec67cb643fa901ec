//! Prediction of the encoding at an address of ARM code: ARM, Thumb or data.
//!
//! A small decision tree looks at the eight bytes from a word-aligned position on.
//! The fourth byte is the top byte of the current word: the condition field in ARM
//! code, the top of a second halfword in Thumb code. The eighth is the top byte of
//! the next word; a run of high top bytes speaks for ARM.
//!
//! Predictions are meant to go through a [`ModePredictor`], which changes its mind
//! only after several alike.

use vstd::prelude::*;

verus! {

/// What the bytes at a position are taken for.
#[derive(Clone, Copy, Debug, PartialEq, Eq, Structural)]
pub enum ArmMode {
    Arm32,
    Thumb,
    Data,
}

/// The byte at a position, zero behind the end.
pub open spec fn byte_or_zero(section: Seq<u8>, at: int) -> u8 {
    if 0 <= at < section.len() {
        section[at]
    } else {
        0
    }
}

/// The verdict on a word whose top byte is zero: data, but for a few Thumb
/// encodings whose second halfword starts with a zero byte.
pub open spec fn verdict_zero(w: Seq<u8>) -> ArmMode {
    let opener = w[1] >= 0xE8;
    let thumb = if !opener {
        (0x40 <= w[2] <= 0x97 && w[7] > 0x4F && w[0] <= 0x23) || (w[2] > 0x97 && w[7] > 0x06
            && w[1] > 0x1D)
    } else if w[7] == 0 {
        w[1] == 0xE8 && w[5] > 0xE7 && w[4] > 0x81
    } else if w[1] <= 0xF8 {
        (w[5] > 0xE9 && w[6] <= 0xFC) || (w[1] == 0xF8 && w[5] <= 0xE9)
    } else {
        w[0] <= 0x0B
    };
    if thumb {
        ArmMode::Thumb
    } else {
        ArmMode::Data
    }
}

/// The verdict on a word whose top byte is below the condition "always": mostly
/// Thumb, or conditional ARM code.
pub open spec fn verdict_conditional(w: Seq<u8>) -> ArmMode {
    if w[1] <= 0x16 {
        if w[7] <= 0xD9 {
            if w[5] <= 0x17 {
                if w[7] > 0x09 {
                    ArmMode::Arm32
                } else {
                    ArmMode::Data
                }
            } else if w[0] > 0x11 {
                ArmMode::Thumb
            } else {
                ArmMode::Data
            }
        } else if w[7] <= 0xEB {
            if w[2] <= 0xD2 {
                ArmMode::Arm32
            } else {
                ArmMode::Data
            }
        } else if w[2] == 0 {
            ArmMode::Arm32
        } else {
            ArmMode::Thumb
        }
    } else if w[2] <= 0xFE {
        if w[5] != 0 {
            ArmMode::Thumb
        } else if w[0] <= 0x10 {
            ArmMode::Arm32
        } else {
            ArmMode::Data
        }
    } else if w[1] > 0xF6 || w[3] <= 0x1B {
        ArmMode::Arm32
    } else {
        ArmMode::Thumb
    }
}

/// The verdict on a word with the condition "always": ARM, unless the next word
/// speaks against it.
pub open spec fn verdict_always(w: Seq<u8>) -> ArmMode {
    let arm = if w[3] <= 0xE5 {
        w[7] <= 0xF4
    } else {
        w[7] == 0 || 0xE0 <= w[7] <= 0xEB
    };
    if arm {
        ArmMode::Arm32
    } else {
        ArmMode::Thumb
    }
}

/// The verdict on a word in the range of vector and floating-point code: ARM in a
/// run of such words, a second halfword of Thumb otherwise.
pub open spec fn verdict_vector(w: Seq<u8>) -> ArmMode {
    let arm = if w[7] >= 0xE0 {
        w[3] <= 0xF4
    } else {
        w[6] == 0xFF
    };
    if arm {
        ArmMode::Arm32
    } else {
        ArmMode::Thumb
    }
}

/// The verdict on eight bytes.
pub open spec fn verdict(w: Seq<u8>) -> ArmMode {
    let top = w[3];
    if top == 0x00 {
        verdict_zero(w)
    } else if top <= 0xDF {
        verdict_conditional(w)
    } else if top <= 0xEB {
        verdict_always(w)
    } else if top <= 0xFE {
        verdict_vector(w)
    } else if w[2] <= 0xF6 && w[1] > 0x90 {
        ArmMode::Thumb
    } else {
        ArmMode::Data
    }
}

/// The eight bytes from a position on.
pub open spec fn window(section: Seq<u8>, offset: int) -> Seq<u8> {
    Seq::new(8, |i: int| byte_or_zero(section, offset + i))
}

/// The byte at a position, zero behind the end.
#[inline]
fn byte_at(section: &[u8], at: usize) -> (r: u8)
    ensures
        r == byte_or_zero(section@, at as int),
{
    if at < section.len() {
        section[at]
    } else {
        0
    }
}

/// Predicts the encoding at a word-aligned position of a code section.
#[inline]
pub fn predict_mode(section: &[u8], offset: usize) -> (r: ArmMode)
    requires
        offset % 4 == 0,
        offset + 7 <= usize::MAX,
    ensures
        r == verdict(window(section@, offset as int)),
{
    let b0: u8 = byte_at(section, offset);
    let b1: u8 = byte_at(section, offset + 1);
    let b2: u8 = byte_at(section, offset + 2);
    let b3: u8 = byte_at(section, offset + 3);
    let b4: u8 = byte_at(section, offset + 4);
    let b5: u8 = byte_at(section, offset + 5);
    let b6: u8 = byte_at(section, offset + 6);
    let b7: u8 = byte_at(section, offset + 7);
    let ghost w = window(section@, offset as int);
    assert(w[0] == b0 && w[1] == b1 && w[2] == b2 && w[3] == b3);
    assert(w[4] == b4 && w[5] == b5 && w[6] == b6 && w[7] == b7);
    if b3 == 0x00 {
        if b1 <= 0xE7 {
            // The first halfword opens no four-byte Thumb instruction.
            if b2 <= 0x3F {
                ArmMode::Data
            } else if b2 <= 0x97 {
                if b7 > 0x4F && b0 <= 0x23 {
                    ArmMode::Thumb
                } else {
                    ArmMode::Data
                }
            } else if b7 > 0x06 && b1 > 0x1D {
                ArmMode::Thumb
            } else {
                ArmMode::Data
            }
        } else if b7 == 0 {
            if b1 == 0xE8 && b5 > 0xE7 && b4 > 0x81 {
                ArmMode::Thumb
            } else {
                ArmMode::Data
            }
        } else if b1 <= 0xF8 {
            if (b5 > 0xE9 && b6 <= 0xFC) || (b1 == 0xF8 && b5 <= 0xE9) {
                ArmMode::Thumb
            } else {
                ArmMode::Data
            }
        } else if b0 <= 0x0B {
            ArmMode::Thumb
        } else {
            ArmMode::Data
        }
    } else if b3 <= 0xDF {
        if b1 <= 0x16 {
            if b7 <= 0xD9 {
                if b5 <= 0x17 {
                    if b7 > 0x09 {
                        ArmMode::Arm32
                    } else {
                        ArmMode::Data
                    }
                } else if b0 > 0x11 {
                    ArmMode::Thumb
                } else {
                    ArmMode::Data
                }
            } else if b7 <= 0xEB {
                // An unconditional ARM word follows: the run is ARM code.
                if b2 <= 0xD2 {
                    ArmMode::Arm32
                } else {
                    ArmMode::Data
                }
            } else if b2 == 0x00 {
                ArmMode::Arm32
            } else {
                ArmMode::Thumb
            }
        } else if b2 <= 0xFE {
            if b5 == 0x00 {
                if b0 <= 0x10 {
                    ArmMode::Arm32
                } else {
                    ArmMode::Data
                }
            } else {
                ArmMode::Thumb
            }
        } else if b1 <= 0xF6 {
            if b3 <= 0x1B {
                ArmMode::Arm32
            } else {
                ArmMode::Thumb
            }
        } else {
            ArmMode::Arm32
        }
    } else if b3 <= 0xEB {
        if b3 <= 0xE5 {
            if b7 <= 0xF4 {
                ArmMode::Arm32
            } else {
                ArmMode::Thumb
            }
        } else if b7 == 0x00 || (0xE0 <= b7 && b7 <= 0xEB) {
            ArmMode::Arm32
        } else {
            ArmMode::Thumb
        }
    } else if b3 <= 0xFE {
        if b7 >= 0xE0 {
            if b3 <= 0xF4 {
                ArmMode::Arm32
            } else {
                ArmMode::Thumb
            }
        } else if b6 == 0xFF {
            ArmMode::Arm32
        } else {
            ArmMode::Thumb
        }
    } else if b2 > 0xF6 {
        ArmMode::Data
    } else if b1 > 0x90 {
        ArmMode::Thumb
    } else {
        ArmMode::Data
    }
}

/// Commits to a mode only after `h` predictions in a row agree on it.
///
/// A single odd word at the border between encodings changes nothing.
pub struct ModePredictor {
    current: Option<ArmMode>,
    pending: Option<ArmMode>,
    run: u8,
    h: u8,
}

/// What a [`ModePredictor`] has come to.
#[verifier::ext_equal]
pub struct PredictorView {
    /// The mode committed to.
    pub current: Option<ArmMode>,
    /// The mode that the latest predictions agree on, short of commitment.
    pub pending: Option<ArmMode>,
    /// How many agree on it.
    pub run: nat,
    /// How many have to.
    pub h: nat,
}

impl View for ModePredictor {
    type V = PredictorView;

    closed spec fn view(&self) -> PredictorView {
        PredictorView {
            current: self.current,
            pending: self.pending,
            run: self.run as nat,
            h: self.h as nat,
        }
    }
}

/// A predictor that has seen nothing.
pub open spec fn fresh_predictor(h: nat) -> PredictorView {
    PredictorView { current: None, pending: None, run: 0, h }
}

impl PredictorView {
    /// Whether the pending run is short of commitment.
    pub open spec fn wf(self) -> bool {
        match self.pending {
            Some(_) => 1 <= self.run < self.h,
            None => self.run == 0,
        }
    }

    /// The predictor after one more prediction.
    pub open spec fn fed(self, raw: ArmMode) -> PredictorView {
        let run = if self.pending == Some(raw) {
            self.run + 1
        } else {
            1
        };
        if run >= self.h {
            PredictorView { current: Some(raw), pending: None, run: 0, h: self.h }
        } else {
            PredictorView { current: self.current, pending: Some(raw), run, h: self.h }
        }
    }

    /// The predictor after several more predictions.
    pub open spec fn fed_all(self, raws: Seq<ArmMode>) -> PredictorView
        decreases raws.len(),
    {
        if raws.len() == 0 {
            self
        } else {
            self.fed_all(raws.drop_last()).fed(raws.last())
        }
    }
}

impl ModePredictor {
    pub closed spec fn wf(&self) -> bool {
        self@.wf()
    }

    /// A predictor that asks for `hysteresis` predictions in a row.
    pub fn new(hysteresis: u8) -> (r: ModePredictor)
        ensures
            r.wf(),
            r@ == fresh_predictor(hysteresis as nat),
    {
        ModePredictor { current: None, pending: None, run: 0, h: hysteresis }
    }

    /// Takes one prediction; gives the mode committed to, if there is one.
    pub fn push(&mut self, raw: ArmMode) -> (r: Option<ArmMode>)
        requires
            old(self).wf(),
        ensures
            final(self).wf(),
            final(self)@ == old(self)@.fed(raw),
            r == final(self)@.current,
    {
        let same = match self.pending {
            Some(p) => p == raw,
            None => false,
        };
        let run: u8 = if same {
            self.run + 1
        } else {
            1
        };
        if run >= self.h {
            self.current = Some(raw);
            self.pending = None;
            self.run = 0;
        } else {
            self.pending = Some(raw);
            self.run = run;
        }
        self.current
    }
}

/// Whether the last `n` predictions are all `mode`.
pub open spec fn ends_in_run(raws: Seq<ArmMode>, n: int, mode: ArmMode) -> bool {
    0 <= n <= raws.len() && forall|i: int| raws.len() - n <= i < raws.len() ==> raws[i] == mode
}

/// The pending run is what the latest predictions are.
proof fn lemma_pending_run(h: nat, raws: Seq<ArmMode>)
    ensures
        fresh_predictor(h).fed_all(raws).wf(),
        fresh_predictor(h).fed_all(raws).h == h,
        match fresh_predictor(h).fed_all(raws).pending {
            Some(p) => ends_in_run(raws, fresh_predictor(h).fed_all(raws).run as int, p),
            None => true,
        },
    decreases raws.len(),
{
    if raws.len() > 0 {
        lemma_pending_run(h, raws.drop_last());
        let before = fresh_predictor(h).fed_all(raws.drop_last());
        let after = fresh_predictor(h).fed_all(raws);
        if after.pending is Some && before.pending == Some(raws.last()) {
            assert forall|i: int| raws.len() - after.run <= i < raws.len() implies raws[i]
                == raws.last() by {
                if i < raws.len() - 1 {
                    assert(raws.drop_last()[i] == raws[i]);
                }
            }
        }
    }
}

/// The predictor changes its mind only where the latest `h` predictions all are
/// the new mode.
pub proof fn law_change_needs_run(h: nat, raws: Seq<ArmMode>)
    requires
        raws.len() > 0,
    ensures
        fresh_predictor(h).fed_all(raws).current != fresh_predictor(h).fed_all(
            raws.drop_last(),
        ).current ==> fresh_predictor(h).fed_all(raws).current == Some(raws.last())
            && ends_in_run(raws, h as int, raws.last()),
{
    lemma_pending_run(h, raws.drop_last());
    let before = fresh_predictor(h).fed_all(raws.drop_last());
    let after = fresh_predictor(h).fed_all(raws);
    if after.current != before.current && h > 1 {
        assert(before.pending == Some(raws.last()));
        assert forall|i: int| raws.len() - h <= i < raws.len() implies raws[i] == raws.last() by {
            if i < raws.len() - 1 {
                assert(raws.drop_last()[i] == raws[i]);
            }
        }
    }
}

/// So many predictions of one mode.
pub open spec fn repeated(mode: ArmMode, n: nat) -> Seq<ArmMode> {
    Seq::new(n, |i: int| mode)
}

/// From any state, `h` predictions in a row bring the predictor to their mode.
pub proof fn law_run_commits(p: PredictorView, mode: ArmMode, n: nat)
    requires
        p.wf(),
        n >= p.h,
        n >= 1,
    ensures
        p.fed_all(repeated(mode, n)).current == Some(mode),
{
    lemma_run(p, mode, n);
}

proof fn lemma_run(p: PredictorView, mode: ArmMode, n: nat)
    requires
        p.wf(),
    ensures
        p.fed_all(repeated(mode, n)).wf(),
        p.fed_all(repeated(mode, n)).h == p.h,
        n == 0 ==> p.fed_all(repeated(mode, n)) == p,
        n >= 1 ==> p.fed_all(repeated(mode, n)).current == Some(mode) || (p.fed_all(
            repeated(mode, n),
        ).pending == Some(mode) && p.fed_all(repeated(mode, n)).run >= n),
    decreases n,
{
    if n > 0 {
        lemma_run(p, mode, (n - 1) as nat);
        assert(repeated(mode, n).drop_last() =~= repeated(mode, (n - 1) as nat));
        assert(repeated(mode, n).last() == mode);
    }
}

/// How many predictions in a row decide: as many as asked for, and at least one.
pub open spec fn run_needed(h: nat) -> int {
    if h == 0 {
        1
    } else {
        h as int
    }
}

/// Whether the first `j` predictions end in `n` of one mode, and no more of them end
/// in `n` of any.
pub open spec fn is_latest_run(raws: Seq<ArmMode>, j: int, n: int, mode: ArmMode) -> bool {
    &&& 0 <= j <= raws.len()
    &&& ends_in_run(raws.take(j), n, mode)
    &&& forall|k: int, other: ArmMode|
        j < k <= raws.len() ==> !(#[trigger] ends_in_run(raws.take(k), n, other))
}

/// How many of the latest predictions are the same.
spec fn tail_run(raws: Seq<ArmMode>) -> nat
    decreases raws.len(),
{
    if raws.len() == 0 {
        0
    } else if raws.len() > 1 && raws.drop_last().last() == raws.last() {
        tail_run(raws.drop_last()) + 1
    } else {
        1
    }
}

proof fn lemma_tail_run(raws: Seq<ArmMode>, n: int)
    requires
        raws.len() > 0,
        n >= 0,
    ensures
        1 <= tail_run(raws) <= raws.len(),
        ends_in_run(raws, n, raws.last()) <==> n <= tail_run(raws),
    decreases raws.len(),
{
    let t = raws.drop_last();
    if t.len() > 0 {
        lemma_tail_run(t, if n > 0 { n - 1 } else { 0 });
    }
    if ends_in_run(raws, n, raws.last()) && n > 1 {
        assert(raws[raws.len() - 2] == raws.last());
        assert(t.last() == raws.last());
        assert(ends_in_run(t, n - 1, t.last()));
    }
    if n <= tail_run(raws) {
        assert forall|i: int| raws.len() - n <= i < raws.len() implies raws[i] == raws.last() by {
            if i < raws.len() - 1 {
                assert(t[i] == raws[i]);
            }
        }
    }
}

/// Short of a decisive run, the pending run is all that the latest predictions
/// agree on; behind one, its mode is committed to.
proof fn lemma_tail_decides(h: nat, raws: Seq<ArmMode>)
    requires
        raws.len() > 0,
    ensures
        tail_run(raws) >= run_needed(h) ==> fresh_predictor(h).fed_all(raws).current == Some(
            raws.last(),
        ),
        tail_run(raws) < run_needed(h) ==> fresh_predictor(h).fed_all(raws).pending == Some(
            raws.last(),
        ) && fresh_predictor(h).fed_all(raws).run == tail_run(raws),
    decreases raws.len(),
{
    let t = raws.drop_last();
    let before = fresh_predictor(h).fed_all(t);
    lemma_pending_run(h, t);
    if t.len() > 0 {
        lemma_tail_decides(h, t);
        lemma_tail_run(t, 0);
        if before.pending is Some {
            assert(t[t.len() - 1] == before.pending->Some_0);
        }
    }
}

/// The latest run of as many predictions as needed decides. After any predictions
/// the mode committed to is that of the latest such run, and there is none exactly
/// where there was no such run.
pub proof fn law_latest_run_decides(h: nat, raws: Seq<ArmMode>, mode: ArmMode)
    ensures
        fresh_predictor(h).fed_all(raws).current == Some(mode) <==> exists|j: int|
            #[trigger] is_latest_run(raws, j, run_needed(h), mode),
        fresh_predictor(h).fed_all(raws).current is None <==> forall|j: int, other: ArmMode|
            0 <= j <= raws.len() ==> !(#[trigger] ends_in_run(
                raws.take(j),
                run_needed(h),
                other,
            )),
    decreases raws.len(),
{
    let n = run_needed(h);
    let len = raws.len() as int;
    assert(raws.take(len) =~= raws);
    if len > 0 {
        let t = raws.drop_last();
        law_latest_run_decides(h, t, mode);
        law_change_needs_run(h, raws);
        lemma_tail_run(raws, n);
        lemma_tail_decides(h, raws);
        assert forall|k: int| 0 <= k < len implies #[trigger] raws.take(k) == t.take(k) by {
            assert(raws.take(k) =~= t.take(k));
        }
        assert forall|other: ArmMode| #[trigger] ends_in_run(raws, n, other) implies other
            == raws.last() by {
            assert(raws[len - 1] == other);
        }
        if tail_run(raws) >= n {
            assert(is_latest_run(raws, len, n, raws.last()));
            assert forall|j: int| #[trigger] is_latest_run(raws, j, n, mode) implies mode
                == raws.last() by {
                if j < len {
                    assert(ends_in_run(raws.take(len), n, raws.last()));
                }
            }
        } else {
            assert forall|j: int|
                #![trigger is_latest_run(t, j, n, mode)]
                #![trigger is_latest_run(raws, j, n, mode)]
                is_latest_run(t, j, n, mode) <==> is_latest_run(raws, j, n, mode) by {
                lemma_same_latest(raws, j, n, mode);
            }
            assert forall|j: int, other: ArmMode| 0 <= j < len implies (#[trigger] ends_in_run(
                t.take(j),
                n,
                other,
            )) == ends_in_run(raws.take(j), n, other) by {
                assert(raws.take(j) == t.take(j));
            }
        }
    }
}

/// A prediction that completes no run leaves the latest run as it was.
proof fn lemma_same_latest(raws: Seq<ArmMode>, j: int, n: int, mode: ArmMode)
    requires
        raws.len() > 0,
        forall|other: ArmMode| !(#[trigger] ends_in_run(raws, n, other)),
    ensures
        is_latest_run(raws.drop_last(), j, n, mode) <==> is_latest_run(raws, j, n, mode),
{
    let t = raws.drop_last();
    let len = raws.len() as int;
    assert(raws.take(len) =~= raws);
    assert forall|k: int| 0 <= k < len implies #[trigger] raws.take(k) == t.take(k) by {
        assert(raws.take(k) =~= t.take(k));
    }
    if is_latest_run(raws, j, n, mode) {
        assert forall|k: int, other: ArmMode| j < k <= t.len() implies !(
        #[trigger] ends_in_run(t.take(k), n, other)) by {
            assert(!ends_in_run(raws.take(k), n, other));
        }
    }
}

} // verus!
