//! The descriptor store: the parser applied once to the text of each
//! discovered file, successes collected in discovery order, silent-skip
//! rejections dropped, and reportable rejections handed back with the index
//! of the offending file.

use vstd::prelude::*;

use crate::desktop::parse_spec;
use crate::desktop::result_model;
use crate::desktop::DesktopEntry;
use crate::desktop::DesktopEntryErr;
use crate::desktop::EntryModel;
use crate::text::lemma_deep_view_push;

verus! {

/// The records of the texts that parse, in discovery order.
pub open spec fn store_spec(texts: Seq<Seq<char>>) -> Seq<EntryModel>
    decreases texts.len(),
{
    if texts.len() == 0 {
        Seq::empty()
    } else {
        let rest = store_spec(texts.drop_last());
        match parse_spec(texts.last()) {
            Ok(e) => rest.push(e),
            Err(_) => rest,
        }
    }
}

/// The reportable rejections, each with the index of the text it came from,
/// in discovery order; silent skips do not appear.
pub open spec fn failures_spec(texts: Seq<Seq<char>>) -> Seq<(usize, DesktopEntryErr)>
    decreases texts.len(),
{
    if texts.len() == 0 {
        Seq::empty()
    } else {
        let rest = failures_spec(texts.drop_last());
        match parse_spec(texts.last()) {
            Ok(_) => rest,
            Err(e) => if e.spec_is_silent() {
                rest
            } else {
                rest.push(((texts.len() - 1) as usize, e))
            },
        }
    }
}

/// Builds the store from the texts of the discovered files: the parser runs
/// once per text; every success is kept in discovery order, silent-skip
/// rejections are dropped, and each reportable rejection is returned with
/// the index of its text so the caller can log the offending path. One bad
/// file never stops the run.
pub fn build_store(texts: &Vec<String>) -> (r: (Vec<DesktopEntry>, Vec<(usize, DesktopEntryErr)>))
    ensures
        r.0.deep_view() == store_spec(texts.deep_view()),
        r.1@ == failures_spec(texts.deep_view()),
{
    let ghost tdv = texts.deep_view();
    let n = texts.len();
    let mut entries: Vec<DesktopEntry> = Vec::new();
    let mut failures: Vec<(usize, DesktopEntryErr)> = Vec::new();
    let mut i: usize = 0;
    proof {
        assert(tdv.take(0) =~= Seq::<Seq<char>>::empty());
        assert(entries.deep_view() =~= store_spec(tdv.take(0)));
        assert(failures@ =~= failures_spec(tdv.take(0)));
    }
    while i < n
        invariant
            n == texts@.len(),
            tdv == texts.deep_view(),
            0 <= i <= n,
            entries.deep_view() == store_spec(tdv.take(i as int)),
            failures@ == failures_spec(tdv.take(i as int)),
        decreases n - i,
    {
        let ghost t = tdv.take(i as int + 1);
        proof {
            assert(t.drop_last() =~= tdv.take(i as int));
            assert(t.last() == tdv[i as int]);
            assert(tdv[i as int] == texts@[i as int]@);
        }
        match DesktopEntry::new(texts[i].as_str()) {
            Ok(e) => {
                let ghost entries0 = entries;
                entries.push(e);
                proof {
                    lemma_deep_view_push(entries0, entries, e);
                    assert(entries.deep_view() =~= store_spec(t));
                }
            },
            Err(e) => {
                if !e.is_silent() {
                    failures.push((i, e));
                }
                proof {
                    assert(entries.deep_view() =~= store_spec(t));
                }
            },
        }
        i += 1;
    }
    proof {
        assert(tdv.take(n as int) =~= tdv);
    }
    (entries, failures)
}

} // verus!

