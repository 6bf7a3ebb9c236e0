//! Segmentation of a frame-wise pitch track into notes (monophonic).
//!
//! A note is a maximal run of voiced frames that no pitch jump breaks. The
//! caller decides per frame whether it is voiced, and whether its pitch jumps
//! too far from the previous frame's; this module finds the runs.
use vstd::prelude::*;

verus! {

/// The open runs after scanning frames `0..n`: the closed runs `(start, end)`
/// (end exclusive) in order, and the start of the run still open, if any.
pub open spec fn scan(voiced: Seq<bool>, jump: Seq<bool>, n: int) -> (Seq<(usize, usize)>, Option<usize>)
    decreases n,
{
    if n <= 0 {
        (seq![], None)
    } else {
        let prev = scan(voiced, jump, n - 1);
        let t = n - 1;
        if !voiced[t] {
            match prev.1 {
                Some(s) => (prev.0.push((s, t as usize)), None),
                None => (prev.0, None),
            }
        } else {
            match prev.1 {
                None => (prev.0, Some(t as usize)),
                Some(s) => if jump[t] {
                    (prev.0.push((s, t as usize)), Some(t as usize))
                } else {
                    (prev.0, Some(s))
                },
            }
        }
    }
}

/// The runs of the whole track, the last one closed at the end of the track.
pub open spec fn runs(voiced: Seq<bool>, jump: Seq<bool>) -> Seq<(usize, usize)> {
    let r = scan(voiced, jump, voiced.len() as int);
    match r.1 {
        Some(s) => r.0.push((s, voiced.len() as usize)),
        None => r.0,
    }
}

/// Frame `t` opens a note: it is voiced, and the frame before is unvoiced or
/// `t` jumps away from it.
pub open spec fn opens_note(voiced: Seq<bool>, jump: Seq<bool>, t: int) -> bool {
    voiced[t] && (t == 0 || !voiced[t - 1] || jump[t])
}

/// `(s, e)` is a maximal run: voiced frames `s..e` with no jump inside, that
/// cannot be extended at either end.
pub open spec fn is_run(voiced: Seq<bool>, jump: Seq<bool>, s: int, e: int) -> bool {
    &&& 0 <= s < e <= voiced.len()
    &&& forall|t: int| s <= t < e ==> #[trigger] voiced[t]
    &&& forall|t: int| s < t < e ==> !#[trigger] jump[t]
    &&& opens_note(voiced, jump, s)
    &&& e == voiced.len() || opens_note(voiced, jump, e) || !voiced[e]
}

/// Splits a track into notes: maximal runs of voiced frames, cut where
/// `jump[t]` says frame `t` jumps away from frame `t - 1`. Returns
/// `(start, end)` frame ranges, end exclusive, in order.
pub fn note_runs(voiced: &[bool], jump: &[bool]) -> (r: Vec<(usize, usize)>)
    requires
        jump@.len() == voiced@.len(),
    ensures
        r@ == runs(voiced@, jump@),
        forall|i: int| 0 <= i < r@.len() ==> is_run(voiced@, jump@, #[trigger] r@[i].0 as int, r@[i].1 as int),
        runs_in_order(r@),
        forall|t: int| 0 <= t < voiced@.len() && #[trigger] voiced@[t] ==> covered(r@, t),
{
    let n = voiced.len();
    proof {
        lemma_runs_ok(voiced@, jump@);
    }
    let mut done: Vec<(usize, usize)> = Vec::new();
    let mut current: Option<usize> = None;
    let mut t: usize = 0;
    while t < n
        invariant
            n == voiced@.len(),
            jump@.len() == n,
            t <= n,
            (done@, current) == scan(voiced@, jump@, t as int),
        decreases n - t,
    {
        if !voiced[t] {
            if let Some(s) = current {
                done.push((s, t));
            }
            current = None;
        } else {
            match current {
                None => {
                    current = Some(t);
                },
                Some(s) => {
                    if jump[t] {
                        done.push((s, t));
                        current = Some(t);
                    }
                },
            }
        }
        t += 1;
    }
    if let Some(s) = current {
        done.push((s, n));
    }
    done
}

/// The runs in `rs` are in order and do not overlap.
pub open spec fn runs_in_order(rs: Seq<(usize, usize)>) -> bool {
    forall|i: int, j: int| 0 <= i < j < rs.len() ==> #[trigger] rs[i].1 <= #[trigger] rs[j].0
}

/// Frame `t` lies in one of the runs `rs`.
pub open spec fn covered(rs: Seq<(usize, usize)>, t: int) -> bool {
    exists|i: int| 0 <= i < rs.len() && #[trigger] rs[i].0 <= t < rs[i].1
}

proof fn lemma_scan_ok(voiced: Seq<bool>, jump: Seq<bool>, n: int)
    requires
        0 <= n <= voiced.len(),
        jump.len() == voiced.len(),
        voiced.len() <= usize::MAX,
    ensures
        ({
            let r = scan(voiced, jump, n);
            &&& forall|i: int| 0 <= i < r.0.len() ==> is_run(voiced, jump, #[trigger] r.0[i].0 as int, r.0[i].1 as int) && r.0[i].1 < n
            &&& forall|i: int| 0 <= i < r.0.len() ==> (#[trigger] r.0[i]).1 < n
            &&& runs_in_order(r.0)
            &&& r.1 matches Some(s) ==> {
                &&& s < n
                &&& opens_note(voiced, jump, s as int)
                &&& forall|t: int| s <= t < n ==> #[trigger] voiced[t]
                &&& forall|t: int| s < t < n ==> !#[trigger] jump[t]
                &&& forall|i: int| 0 <= i < r.0.len() ==> #[trigger] r.0[i].1 <= s
            }
            &&& forall|t: int| 0 <= t < n && #[trigger] voiced[t] ==> covered(r.0, t) || (r.1 matches Some(s) && s <= t)
        }),
    decreases n,
{
    if n > 0 {
        lemma_scan_ok(voiced, jump, n - 1);
        let prev = scan(voiced, jump, n - 1);
        let r = scan(voiced, jump, n);
        let t = n - 1;
        if !voiced[t] {
            match prev.1 {
                Some(s) => {
                    assert(r.0 == prev.0.push((s, t as usize)));
                    assert(is_run(voiced, jump, s as int, t));
                    assert forall|i: int| 0 <= i < r.0.len() implies is_run(voiced, jump, #[trigger] r.0[i].0 as int, r.0[i].1 as int) && r.0[i].1 < n by {
                        if i < prev.0.len() {
                            assert(r.0[i] == prev.0[i]);
                        }
                    }
                    assert forall|i: int, j: int| 0 <= i < j < r.0.len() implies #[trigger] r.0[i].1 <= #[trigger] r.0[j].0 by {
                        assert(r.0[i] == prev.0[i]);
                        if j < prev.0.len() {
                            assert(r.0[j] == prev.0[j]);
                        }
                    }
                    assert forall|t2: int| 0 <= t2 < n && #[trigger] voiced[t2] implies covered(r.0, t2) by {
                        if covered(prev.0, t2) {
                            let i = choose|i: int| 0 <= i < prev.0.len() && #[trigger] prev.0[i].0 <= t2 < prev.0[i].1;
                            assert(r.0[i] == prev.0[i]);
                        } else {
                            assert(t2 != t);
                            assert(s <= t2);
                            assert(r.0[prev.0.len() as int] == (s, t as usize));
                            assert(r.0[prev.0.len() as int].0 <= t2 < r.0[prev.0.len() as int].1);
                        }
                    }
                },
                None => {
                    assert(r.0 == prev.0);
                    assert forall|t2: int| 0 <= t2 < n && #[trigger] voiced[t2] implies covered(r.0, t2) by {
                        assert(t2 != t);
                    }
                },
            }
        } else {
            match prev.1 {
                None => {
                    assert(opens_note(voiced, jump, t));
                    assert(r.0 == prev.0);
                    assert forall|i: int| 0 <= i < r.0.len() implies #[trigger] r.0[i].1 <= t by {
                        assert(r.0[i] == prev.0[i]);
                    }
                },
                Some(s) => {
                    if jump[t] {
                        assert(r.0 == prev.0.push((s, t as usize)));
                        assert(opens_note(voiced, jump, t));
                        assert(is_run(voiced, jump, s as int, t));
                        assert forall|i: int| 0 <= i < r.0.len() implies is_run(voiced, jump, #[trigger] r.0[i].0 as int, r.0[i].1 as int) && r.0[i].1 < n by {
                            if i < prev.0.len() {
                                assert(r.0[i] == prev.0[i]);
                            }
                        }
                        assert forall|i: int, j: int| 0 <= i < j < r.0.len() implies #[trigger] r.0[i].1 <= #[trigger] r.0[j].0 by {
                            assert(r.0[i] == prev.0[i]);
                            if j < prev.0.len() {
                                assert(r.0[j] == prev.0[j]);
                            }
                        }
                        assert forall|i: int| 0 <= i < r.0.len() implies #[trigger] r.0[i].1 <= t by {
                            if i < prev.0.len() {
                                assert(r.0[i] == prev.0[i]);
                            }
                        }
                        assert forall|t2: int| 0 <= t2 < n && #[trigger] voiced[t2] implies covered(r.0, t2) || t <= t2 by {
                            if covered(prev.0, t2) {
                                let i = choose|i: int| 0 <= i < prev.0.len() && #[trigger] prev.0[i].0 <= t2 < prev.0[i].1;
                                assert(r.0[i] == prev.0[i]);
                            } else if t2 < t {
                                assert(r.0[prev.0.len() as int] == (s, t as usize));
                            }
                        }
                    }
                },
            }
        }
    }
}

/// The runs are exactly the maximal runs of the track, in order: each is a
/// maximal run of voiced frames without a jump inside, they do not overlap,
/// and every voiced frame lies in one of them.
pub proof fn lemma_runs_ok(voiced: Seq<bool>, jump: Seq<bool>)
    requires
        jump.len() == voiced.len(),
        voiced.len() <= usize::MAX,
    ensures
        forall|i: int| 0 <= i < runs(voiced, jump).len() ==> is_run(voiced, jump, #[trigger] runs(voiced, jump)[i].0 as int, runs(voiced, jump)[i].1 as int),
        runs_in_order(runs(voiced, jump)),
        forall|t: int| 0 <= t < voiced.len() && #[trigger] voiced[t] ==> covered(runs(voiced, jump), t),
{
    let n = voiced.len() as int;
    lemma_scan_ok(voiced, jump, n);
    let r = scan(voiced, jump, n);
    let rs = runs(voiced, jump);
    match r.1 {
        Some(s) => {
            assert(rs == r.0.push((s, n as usize)));
            assert(is_run(voiced, jump, s as int, n));
            assert forall|i: int| 0 <= i < rs.len() implies is_run(voiced, jump, #[trigger] rs[i].0 as int, rs[i].1 as int) by {
                if i < r.0.len() {
                    assert(rs[i] == r.0[i]);
                }
            }
            assert forall|i: int, j: int| 0 <= i < j < rs.len() implies #[trigger] rs[i].1 <= #[trigger] rs[j].0 by {
                assert(rs[i] == r.0[i]);
                if j < r.0.len() {
                    assert(rs[j] == r.0[j]);
                }
            }
            assert forall|t: int| 0 <= t < n && #[trigger] voiced[t] implies covered(rs, t) by {
                if covered(r.0, t) {
                    let i = choose|i: int| 0 <= i < r.0.len() && #[trigger] r.0[i].0 <= t < r.0[i].1;
                    assert(rs[i] == r.0[i]);
                } else {
                    assert(rs[r.0.len() as int] == (s, n as usize));
                    assert(rs[r.0.len() as int].0 <= t < rs[r.0.len() as int].1);
                }
            }
        },
        None => {
            assert(rs == r.0);
        },
    }
}

} // verus!
