//! The decision core of the run fetcher.
//!
//! Talking to the upstream CI service is network work and lives in the
//! embedding program; what is verified here are the two decisions that make
//! fetching correct: which listed runs are new (never processed before),
//! and which attached artifacts follow the result-file naming convention.

use vstd::prelude::*;
use vstd::string::StrSliceExecFns;

verus! {

/// An artifact name that follows the result-file convention: its extension
/// (the part after the final dot, which must not start the name) is `json`,
/// compared ASCII-case-insensitively.
pub open spec fn spec_is_result_name(s: Seq<char>) -> bool {
    &&& s.len() >= 6
    &&& s[s.len() - 5] == '.'
    &&& (s[s.len() - 4] == 'j' || s[s.len() - 4] == 'J')
    &&& (s[s.len() - 3] == 's' || s[s.len() - 3] == 'S')
    &&& (s[s.len() - 2] == 'o' || s[s.len() - 2] == 'O')
    &&& (s[s.len() - 1] == 'n' || s[s.len() - 1] == 'N')
}

/// Whether an artifact's file name follows the result-file convention.
pub fn is_result_artifact(name: &str) -> (r: bool)
    ensures
        r == spec_is_result_name(name@),
{
    let n = name.unicode_len();
    if n < 6 {
        return false;
    }
    let dot = name.get_char(n - 5);
    let c1 = name.get_char(n - 4);
    let c2 = name.get_char(n - 3);
    let c3 = name.get_char(n - 2);
    let c4 = name.get_char(n - 1);
    dot == '.' && (c1 == 'j' || c1 == 'J') && (c2 == 's' || c2 == 'S') && (c3 == 'o' || c3
        == 'O') && (c4 == 'n' || c4 == 'N')
}

/// The sub-sequence of `listed` whose elements are not in `known`, in order.
pub open spec fn spec_new_runs(listed: Seq<u64>, known: Seq<u64>) -> Seq<u64>
    decreases listed.len(),
{
    if listed.len() == 0 {
        Seq::empty()
    } else {
        let rest = spec_new_runs(listed.drop_first(), known);
        if known.contains(listed[0]) {
            rest
        } else {
            seq![listed[0]] + rest
        }
    }
}

/// Every run the filter keeps was listed and is not yet known, and every
/// listed-but-unknown run is kept.
pub proof fn lemma_new_runs_membership(listed: Seq<u64>, known: Seq<u64>, id: u64)
    ensures
        spec_new_runs(listed, known).contains(id) <==> listed.contains(id) && !known.contains(id),
    decreases listed.len(),
{
    if listed.len() > 0 {
        lemma_new_runs_membership(listed.drop_first(), known, id);
        let rest = spec_new_runs(listed.drop_first(), known);
        if !known.contains(listed[0]) {
            assert(spec_new_runs(listed, known) == seq![listed[0]] + rest);
            if id == listed[0] {
                assert(listed.contains(id)) by {
                    assert(listed[0] == id);
                }
                assert((seq![listed[0]] + rest)[0] == id);
            } else {
                assert((seq![listed[0]] + rest).contains(id) <==> rest.contains(id)) by {
                    if (seq![listed[0]] + rest).contains(id) {
                        let k = choose|k: int|
                            0 <= k < (seq![listed[0]] + rest).len() && (seq![listed[0]]
                                + rest)[k] == id;
                        assert(rest[k - 1] == id);
                    } else if rest.contains(id) {
                        let k = choose|k: int| 0 <= k < rest.len() && rest[k] == id;
                        assert((seq![listed[0]] + rest)[k + 1] == id);
                    }
                }
            }
        }
        if listed.contains(id) && id != listed[0] {
            let k = choose|k: int| 0 <= k < listed.len() && listed[k] == id;
            assert(listed.drop_first()[k - 1] == id);
        }
        if listed.drop_first().contains(id) {
            let k = choose|k: int| 0 <= k < listed.drop_first().len() && listed.drop_first()[k]
                == id;
            assert(listed[k + 1] == id);
        }
    }
}

/// Whether `runs` holds `id`.
pub fn runs_contain(runs: &Vec<u64>, id: u64) -> (r: bool)
    ensures
        r == runs@.contains(id),
{
    let mut i: usize = 0;
    while i < runs.len()
        invariant
            0 <= i <= runs@.len(),
            forall|k: int| 0 <= k < i ==> runs@[k] != id,
        decreases runs@.len() - i,
    {
        if runs[i] == id {
            return true;
        }
        i += 1;
    }
    false
}

/// Keep only the listed runs that are not yet known, preserving order.
///
/// This is the deduplication step of an update cycle: runs already
/// processed, successfully or not, are never fetched again.
pub fn new_runs(listed: &Vec<u64>, known: &Vec<u64>) -> (r: Vec<u64>)
    ensures
        r@ == spec_new_runs(listed@, known@),
        forall|k: int| 0 <= k < r@.len() ==> !known@.contains(#[trigger] r@[k]),
{
    let mut out: Vec<u64> = Vec::new();
    let mut i: usize = 0;
    proof {
        assert(listed@.skip(0) =~= listed@);
        assert(Seq::<u64>::empty() + spec_new_runs(listed@, known@) =~= spec_new_runs(
            listed@,
            known@,
        ));
    }
    while i < listed.len()
        invariant
            0 <= i <= listed@.len(),
            spec_new_runs(listed@, known@) == out@ + spec_new_runs(
                listed@.skip(i as int),
                known@,
            ),
            forall|k: int| 0 <= k < out@.len() ==> !known@.contains(#[trigger] out@[k]),
        decreases listed@.len() - i,
    {
        proof {
            assert(listed@.skip(i as int)[0] == listed@[i as int]);
            assert(listed@.skip(i as int).drop_first() =~= listed@.skip(i as int + 1));
        }
        if !runs_contain(known, listed[i]) {
            let ghost prev = out@;
            out.push(listed[i]);
            proof {
                let rest = spec_new_runs(listed@.skip(i as int + 1), known@);
                assert(out@ =~= prev + seq![listed@[i as int]]);
                vstd::seq_lib::lemma_concat_associative(
                    prev,
                    seq![listed@[i as int]],
                    rest,
                );
            }
        }
        i += 1;
    }
    proof {
        assert(listed@.skip(listed@.len() as int) =~= Seq::<u64>::empty());
        assert(out@ + Seq::<u64>::empty() =~= out@);
    }
    out
}

} // verus!
