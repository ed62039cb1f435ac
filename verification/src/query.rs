//! Filtered views of a snapshot.
//!
//! The query surface renders the cache purely by filtering the snapshot
//! that `Cache::data` returned; no cache logic lives here. Each function
//! returns exactly the sub-sequence (or first match) its specification
//! names, in snapshot order.

use vstd::prelude::*;

use crate::cache::views_of;
use crate::date::Date;
use crate::record::{RecordView, TestsuiteResult};

verus! {

/// The records whose testsuite name is `name`, in order.
pub open spec fn spec_by_name(s: Seq<RecordView>, name: Seq<char>) -> Seq<RecordView>
    decreases s.len(),
{
    if s.len() == 0 {
        Seq::empty()
    } else {
        let rest = spec_by_name(s.drop_first(), name);
        if s[0].name == name {
            seq![s[0]] + rest
        } else {
            rest
        }
    }
}

/// The records completed on `date`, in order.
pub open spec fn spec_by_date(s: Seq<RecordView>, date: Date) -> Seq<RecordView>
    decreases s.len(),
{
    if s.len() == 0 {
        Seq::empty()
    } else {
        let rest = spec_by_date(s.drop_first(), date);
        if s[0].date == date {
            seq![s[0]] + rest
        } else {
            rest
        }
    }
}

/// The first record with the `(name, date)` key, if any.
pub open spec fn spec_find_key_date(s: Seq<RecordView>, name: Seq<char>, date: Date) -> Option<
    RecordView,
>
    decreases s.len(),
{
    if s.len() == 0 {
        None
    } else if s[0].name == name && s[0].date == date {
        Some(s[0])
    } else {
        spec_find_key_date(s.drop_first(), name, date)
    }
}

/// Distinct testsuite names, in order of first occurrence after `acc`.
pub open spec fn spec_add_names(acc: Seq<Seq<char>>, s: Seq<RecordView>) -> Seq<Seq<char>>
    decreases s.len(),
{
    if s.len() == 0 {
        acc
    } else {
        let next = if acc.contains(s[0].name) {
            acc
        } else {
            acc.push(s[0].name)
        };
        spec_add_names(next, s.drop_first())
    }
}

/// Distinct run dates, in order of first occurrence after `acc`.
pub open spec fn spec_add_dates(acc: Seq<Date>, s: Seq<RecordView>) -> Seq<Date>
    decreases s.len(),
{
    if s.len() == 0 {
        acc
    } else {
        let next = if acc.contains(s[0].date) {
            acc
        } else {
            acc.push(s[0].date)
        };
        spec_add_dates(next, s.drop_first())
    }
}

/// The records of one testsuite, in snapshot order.
pub fn testsuite_by_key(data: &Vec<TestsuiteResult>, key: &String) -> (r: Vec<TestsuiteResult>)
    ensures
        views_of(r@) == spec_by_name(views_of(data@), key@),
{
    let ghost s = views_of(data@);
    let mut out: Vec<TestsuiteResult> = Vec::new();
    let mut i: usize = 0;
    proof {
        assert(s.skip(0) =~= s);
        assert(views_of(out@) + spec_by_name(s, key@) =~= spec_by_name(s, key@));
    }
    while i < data.len()
        invariant
            0 <= i <= data@.len(),
            s == views_of(data@),
            spec_by_name(s, key@) == views_of(out@) + spec_by_name(s.skip(i as int), key@),
        decreases data@.len() - i,
    {
        proof {
            assert(s.skip(i as int)[0] == s[i as int]);
            assert(s.skip(i as int).drop_first() =~= s.skip(i as int + 1));
        }
        if data[i].name.eq(key) {
            let ghost prev = out@;
            out.push(data[i].duplicate());
            proof {
                assert(views_of(out@) =~= views_of(prev) + seq![s[i as int]]);
                vstd::seq_lib::lemma_concat_associative(
                    views_of(prev),
                    seq![s[i as int]],
                    spec_by_name(s.skip(i as int + 1), key@),
                );
            }
        }
        i += 1;
    }
    proof {
        assert(s.skip(s.len() as int) =~= Seq::<RecordView>::empty());
        assert(views_of(out@) + Seq::<RecordView>::empty() =~= views_of(out@));
    }
    out
}

/// The records completed on one date, in snapshot order.
pub fn runs_by_date(data: &Vec<TestsuiteResult>, date: &Date) -> (r: Vec<TestsuiteResult>)
    ensures
        views_of(r@) == spec_by_date(views_of(data@), *date),
{
    let ghost s = views_of(data@);
    let mut out: Vec<TestsuiteResult> = Vec::new();
    let mut i: usize = 0;
    proof {
        assert(s.skip(0) =~= s);
        assert(views_of(out@) + spec_by_date(s, *date) =~= spec_by_date(s, *date));
    }
    while i < data.len()
        invariant
            0 <= i <= data@.len(),
            s == views_of(data@),
            spec_by_date(s, *date) == views_of(out@) + spec_by_date(s.skip(i as int), *date),
        decreases data@.len() - i,
    {
        proof {
            assert(s.skip(i as int)[0] == s[i as int]);
            assert(s.skip(i as int).drop_first() =~= s.skip(i as int + 1));
        }
        if data[i].date == *date {
            let ghost prev = out@;
            out.push(data[i].duplicate());
            proof {
                assert(views_of(out@) =~= views_of(prev) + seq![s[i as int]]);
                vstd::seq_lib::lemma_concat_associative(
                    views_of(prev),
                    seq![s[i as int]],
                    spec_by_date(s.skip(i as int + 1), *date),
                );
            }
        }
        i += 1;
    }
    proof {
        assert(s.skip(s.len() as int) =~= Seq::<RecordView>::empty());
        assert(views_of(out@) + Seq::<RecordView>::empty() =~= views_of(out@));
    }
    out
}

/// The record of one testsuite on one date, if the snapshot holds one.
pub fn testsuite_by_key_date(data: &Vec<TestsuiteResult>, key: &String, date: &Date) -> (r: Option<
    TestsuiteResult,
>)
    ensures
        match r {
            Some(t) => spec_find_key_date(views_of(data@), key@, *date) == Some(t@),
            None => spec_find_key_date(views_of(data@), key@, *date) is None,
        },
{
    let ghost s = views_of(data@);
    let mut i: usize = 0;
    proof {
        assert(s.skip(0) =~= s);
    }
    while i < data.len()
        invariant
            0 <= i <= data@.len(),
            s == views_of(data@),
            spec_find_key_date(s, key@, *date) == spec_find_key_date(
                s.skip(i as int),
                key@,
                *date,
            ),
        decreases data@.len() - i,
    {
        proof {
            assert(s.skip(i as int)[0] == s[i as int]);
            assert(s.skip(i as int).drop_first() =~= s.skip(i as int + 1));
        }
        if data[i].name.eq(key) && data[i].date == *date {
            return Some(data[i].duplicate());
        }
        i += 1;
    }
    proof {
        assert(s.skip(s.len() as int) =~= Seq::<RecordView>::empty());
    }
    None
}

/// Whether `dates` holds `date`.
fn dates_contain(dates: &Vec<Date>, date: Date) -> (r: bool)
    ensures
        r == dates@.contains(date),
{
    let mut i: usize = 0;
    while i < dates.len()
        invariant
            0 <= i <= dates@.len(),
            forall|k: int| 0 <= k < i ==> dates@[k] != date,
        decreases dates@.len() - i,
    {
        if dates[i] == date {
            return true;
        }
        i += 1;
    }
    false
}

/// Whether `names` holds `name`.
fn names_contain(names: &Vec<String>, name: &String) -> (r: bool)
    ensures
        r == names@.map_values(|n: String| n@).contains(name@),
{
    let mut i: usize = 0;
    while i < names.len()
        invariant
            0 <= i <= names@.len(),
            forall|k: int| 0 <= k < i ==> (#[trigger] names@[k])@ != name@,
        decreases names@.len() - i,
    {
        if names[i].eq(name) {
            proof {
                assert(names@.map_values(|n: String| n@)[i as int] == name@);
            }
            return true;
        }
        proof {
            assert(names@[i as int]@ != name@);
        }
        i += 1;
    }
    proof {
        let m = names@.map_values(|n: String| n@);
        if m.contains(name@) {
            let k = choose|k: int| 0 <= k < m.len() && m[k] == name@;
            assert(names@[k]@ == name@);
        }
    }
    false
}

/// The distinct dates of the snapshot, in order of first occurrence.
pub fn all_run_dates(data: &Vec<TestsuiteResult>) -> (r: Vec<Date>)
    ensures
        r@ == spec_add_dates(Seq::empty(), views_of(data@)),
{
    let ghost s = views_of(data@);
    let mut out: Vec<Date> = Vec::new();
    let mut i: usize = 0;
    proof {
        assert(s.skip(0) =~= s);
    }
    while i < data.len()
        invariant
            0 <= i <= data@.len(),
            s == views_of(data@),
            spec_add_dates(Seq::empty(), s) == spec_add_dates(out@, s.skip(i as int)),
        decreases data@.len() - i,
    {
        proof {
            assert(s.skip(i as int)[0] == s[i as int]);
            assert(s.skip(i as int).drop_first() =~= s.skip(i as int + 1));
        }
        if !dates_contain(&out, data[i].date) {
            out.push(data[i].date);
        }
        i += 1;
    }
    proof {
        assert(s.skip(s.len() as int) =~= Seq::<RecordView>::empty());
    }
    out
}

/// The distinct testsuite names of the snapshot, in order of first
/// occurrence.
pub fn testsuites(data: &Vec<TestsuiteResult>) -> (r: Vec<String>)
    ensures
        r@.map_values(|n: String| n@) == spec_add_names(Seq::empty(), views_of(data@)),
{
    let ghost s = views_of(data@);
    let ghost nv = |n: String| n@;
    let mut out: Vec<String> = Vec::new();
    let mut i: usize = 0;
    proof {
        assert(s.skip(0) =~= s);
        assert(out@.map_values(nv) =~= Seq::<Seq<char>>::empty());
    }
    while i < data.len()
        invariant
            0 <= i <= data@.len(),
            s == views_of(data@),
            nv == (|n: String| n@),
            spec_add_names(Seq::empty(), s) == spec_add_names(out@.map_values(nv), s.skip(i as int)),
        decreases data@.len() - i,
    {
        proof {
            assert(s.skip(i as int)[0] == s[i as int]);
            assert(s.skip(i as int).drop_first() =~= s.skip(i as int + 1));
        }
        if !names_contain(&out, &data[i].name) {
            let ghost prev = out@;
            out.push(data[i].name.clone());
            proof {
                assert(out@.map_values(nv) =~= prev.map_values(nv).push(s[i as int].name));
            }
        }
        i += 1;
    }
    proof {
        assert(s.skip(s.len() as int) =~= Seq::<RecordView>::empty());
    }
    out
}

} // verus!
