//! The category engine: a fixed catalog of named categories, each populated
//! with the store indices of the descriptors that carry its identifier,
//! sorted by lowercased display name with discovery order as the tie-break.

use vstd::prelude::*;

use crate::desktop::DesktopEntry;
use crate::desktop::EntryModel;
use crate::order::name_order;
use crate::order::order_seq;
use crate::order::sorted_by;
use crate::order::sort_indices_by_name;
use crate::text::lower_of;
use crate::text::lowercase;
use crate::text::str_eq;

verus! {

/// A named grouping of descriptors. `entries` holds indices into the
/// descriptor store the category was populated from; the store owns the
/// records.
#[derive(Clone, Debug)]
pub struct Category {
    pub iden: String,
    pub name: String,
    pub icon: String,
    pub entries: Vec<usize>,
}

/// The mathematical model of a category.
#[verifier::ext_equal]
pub struct CategoryModel {
    pub iden: Seq<char>,
    pub name: Seq<char>,
    pub icon: Seq<char>,
    pub entries: Seq<usize>,
}

impl View for Category {
    type V = CategoryModel;

    open spec fn view(&self) -> CategoryModel {
        CategoryModel {
            iden: self.iden@,
            name: self.name@,
            icon: self.icon@,
            entries: self.entries@,
        }
    }
}

impl DeepView for Category {
    type V = CategoryModel;

    open spec fn deep_view(&self) -> CategoryModel {
        self.view()
    }
}

/// Whether a descriptor carries the category identifier, compared
/// case-insensitively.
pub open spec fn entry_matches(e: EntryModel, iden: Seq<char>) -> bool {
    exists|k: int|
        0 <= k < e.categories.len() && lower_of(#[trigger] e.categories[k]) == lower_of(iden)
}

/// The store indices whose descriptor matches `iden`, in store order.
pub open spec fn match_indices(store: Seq<EntryModel>, iden: Seq<char>) -> Seq<usize>
    decreases store.len(),
{
    if store.len() == 0 {
        Seq::empty()
    } else {
        let rest = match_indices(store.drop_last(), iden);
        if entry_matches(store.last(), iden) {
            rest.push((store.len() - 1) as usize)
        } else {
            rest
        }
    }
}

/// The indices a membership scan yields are in-bounds, strictly increasing
/// and therefore free of duplicates.
pub proof fn lemma_match_indices_shape(store: Seq<EntryModel>, iden: Seq<char>)
    requires
        store.len() <= usize::MAX as nat,
    ensures
        forall|k: int|
            0 <= k < match_indices(store, iden).len() ==> #[trigger] match_indices(store, iden)[k]
                < store.len(),
        forall|p: int, q: int|
            0 <= p < q < match_indices(store, iden).len() ==> match_indices(store, iden)[p]
                < match_indices(store, iden)[q],
        match_indices(store, iden).no_duplicates(),
    decreases store.len(),
{
    let full = match_indices(store, iden);
    if store.len() != 0 {
        lemma_match_indices_shape(store.drop_last(), iden);
        let rest = match_indices(store.drop_last(), iden);
        if entry_matches(store.last(), iden) {
            let x = (store.len() - 1) as usize;
            assert(full == rest.push(x));
            assert forall|p: int, q: int| 0 <= p < q < full.len() implies full[p] < full[q] by {
                if q < rest.len() {
                    assert(full[p] == rest[p]);
                    assert(full[q] == rest[q]);
                } else {
                    assert(full[q] == x);
                    assert(full[p] == rest[p]);
                    assert(rest[p] < store.drop_last().len());
                }
            }
        }
    }
    assert forall|i: int, j: int|
        0 <= i < full.len() && 0 <= j < full.len() && i != j implies full[i] != full[j] by {
        if i < j {
            assert(full[i] < full[j]);
        } else {
            assert(full[j] < full[i]);
        }
    }
}

/// An index is a member exactly when it is in bounds and its descriptor
/// matches the identifier.
pub proof fn lemma_match_indices_contains(store: Seq<EntryModel>, iden: Seq<char>, e: usize)
    requires
        store.len() <= usize::MAX as nat,
    ensures
        match_indices(store, iden).contains(e) <==> (e < store.len() && entry_matches(
            store[e as int],
            iden,
        )),
    decreases store.len(),
{
    if store.len() != 0 {
        lemma_match_indices_contains(store.drop_last(), iden, e);
        let rest = match_indices(store.drop_last(), iden);
        let full = match_indices(store, iden);
        if entry_matches(store.last(), iden) {
            assert(full == rest.push((store.len() - 1) as usize));
            if e < store.len() && entry_matches(store[e as int], iden) {
                if e == store.len() - 1 {
                    assert(full[full.len() - 1] == e);
                    assert(full.contains(e));
                } else {
                    assert(store.drop_last()[e as int] == store[e as int]);
                    let j = choose|j: int| 0 <= j < rest.len() && rest[j] == e;
                    assert(full[j] == e);
                    assert(full.contains(e));
                }
            }
            if full.contains(e) {
                let j = choose|j: int| 0 <= j < full.len() && full[j] == e;
                assert(full.len() == rest.len() + 1);
                if j < rest.len() {
                    assert(rest[j] == e);
                    assert(rest.contains(e));
                    assert(store.drop_last()[e as int] == store[e as int]);
                } else {
                    assert(j == rest.len());
                    assert(full[j] == (store.len() - 1) as usize);
                    assert(e == store.len() - 1);
                    assert(store[e as int] == store.last());
                }
            }
        } else {
            assert(full == rest);
            if e < store.len() && entry_matches(store[e as int], iden) {
                if e == store.len() - 1 {
                } else {
                    assert(store.drop_last()[e as int] == store[e as int]);
                }
            }
            if full.contains(e) {
                assert(store.drop_last()[e as int] == store[e as int]);
            }
        }
    }
}

/// The lowercased display names of all store entries, aligned by index.
pub open spec fn lower_names(store: Seq<EntryModel>) -> Seq<Seq<char>> {
    Seq::new(store.len(), |i: int| lower_of(store[i].name))
}

/// The membership of a category over a store: the matching indices, sorted
/// by lowercased name with store order breaking ties.
pub open spec fn members_sorted(store: Seq<EntryModel>, iden: Seq<char>) -> Seq<usize> {
    order_seq(name_order(lower_names(store)), match_indices(store, iden))
}

/// Category membership holds exactly the store indices whose descriptor
/// carries the identifier case-insensitively, each once, sorted by
/// lowercased display name with store order breaking ties.
pub proof fn lemma_members_sorted_correct(store: Seq<EntryModel>, iden: Seq<char>)
    requires
        store.len() <= usize::MAX as nat,
    ensures
        forall|e: usize|
            #[trigger] members_sorted(store, iden).contains(e) <==> (e < store.len()
                && entry_matches(store[e as int], iden)),
        sorted_by(name_order(lower_names(store)), members_sorted(store, iden)),
        members_sorted(store, iden).to_multiset() == match_indices(store, iden).to_multiset(),
{
    let lt = name_order(lower_names(store));
    let m = match_indices(store, iden);
    lemma_match_indices_shape(store, iden);
    crate::order::lemma_name_order_strict(lower_names(store), m);
    crate::order::lemma_order_seq_sorted(lt, m);
    crate::order::lemma_order_seq_multiset(lt, m);
    assert forall|e: usize|
        #[trigger] members_sorted(store, iden).contains(e) <==> (e < store.len() && entry_matches(
            store[e as int],
            iden,
        )) by {
        crate::order::lemma_order_seq_contains(lt, m, e);
        lemma_match_indices_contains(store, iden, e);
    }
}

/// Whether the descriptor carries the given category identifier,
/// case-insensitively.
fn matches_category(e: &DesktopEntry, iden_low: &String, ghost_iden: Ghost<Seq<char>>) -> (r: bool)
    requires
        iden_low@ == lower_of(ghost_iden@),
    ensures
        r == entry_matches(e@, ghost_iden@),
{
    let n = e.categories.len();
    let mut k: usize = 0;
    while k < n
        invariant
            n == e.categories@.len(),
            0 <= k <= n,
            iden_low@ == lower_of(ghost_iden@),
            forall|j: int| 0 <= j < k ==> lower_of(e@.categories[j]) != lower_of(ghost_iden@),
        decreases n - k,
    {
        let low = lowercase(e.categories[k].as_str());
        proof {
            assert(e@.categories[k as int] == e.categories@[k as int]@);
        }
        if str_eq(low.as_str(), iden_low.as_str()) {
            proof {
                assert(lower_of(e@.categories[k as int]) == lower_of(ghost_iden@));
            }
            return true;
        }
        k += 1;
    }
    false
}

impl Category {
    /// A catalog entry with the given identifier, display name and icon
    /// hint, and no members yet.
    pub fn new(iden: &str, name: &str, icon: &str) -> (r: Category)
        ensures
            r@.iden == iden@,
            r@.name == name@,
            r@.icon == icon@,
            r@.entries == Seq::<usize>::empty(),
    {
        let r = Category {
            iden: iden.to_owned(),
            name: name.to_owned(),
            icon: icon.to_owned(),
            entries: Vec::new(),
        };
        proof {
            assert(r@.entries =~= Seq::<usize>::empty());
        }
        r
    }

    /// Populates the membership of this category from the store: the
    /// indices of all descriptors whose `categories` contain this
    /// identifier case-insensitively, sorted by lowercased name, ties in
    /// store order.
    pub fn add_entries(&mut self, store: &Vec<DesktopEntry>)
        requires
            old(self).entries@.len() == 0,
        ensures
            final(self).iden == old(self).iden,
            final(self).name == old(self).name,
            final(self).icon == old(self).icon,
            final(self).entries@ == members_sorted(store.deep_view(), old(self).iden@),
    {
        let ghost sdv = store.deep_view();
        let n = store.len();
        // lowercased display names, aligned with store indices
        let mut keys: Vec<String> = Vec::new();
        let mut i: usize = 0;
        proof {
            assert(keys.deep_view() =~= lower_names(sdv).take(0));
        }
        while i < n
            invariant
                n == store@.len(),
                sdv == store.deep_view(),
                0 <= i <= n,
                keys@.len() == i,
                keys.deep_view() == lower_names(sdv).take(i as int),
            decreases n - i,
        {
            let ghost keys0 = keys;
            let low = lowercase(store[i].name.as_str());
            keys.push(low);
            proof {
                crate::text::lemma_deep_view_push(keys0, keys, low);
                assert(sdv[i as int] == store@[i as int].deep_view());
                assert(keys.deep_view() =~= lower_names(sdv).take(i as int + 1));
            }
            i += 1;
        }
        proof {
            assert(lower_names(sdv).take(n as int) =~= lower_names(sdv));
        }
        // the matching store indices, in store order
        let iden_low = lowercase(self.iden.as_str());
        let mut matched: Vec<usize> = Vec::new();
        let mut i: usize = 0;
        proof {
            assert(sdv.take(0) =~= Seq::<EntryModel>::empty());
        }
        while i < n
            invariant
                n == store@.len(),
                sdv == store.deep_view(),
                0 <= i <= n,
                iden_low@ == lower_of(self.iden@),
                self == old(self),
                matched@ == match_indices(sdv.take(i as int), self.iden@),
                forall|k: int| 0 <= k < matched@.len() ==> matched@[k] < i,
            decreases n - i,
        {
            proof {
                let t = sdv.take(i as int + 1);
                assert(t.drop_last() =~= sdv.take(i as int));
                assert(t.last() == sdv[i as int]);
                assert(sdv[i as int] == store@[i as int].deep_view());
            }
            if matches_category(&store[i], &iden_low, Ghost(self.iden@)) {
                matched.push(i);
            }
            i += 1;
        }
        proof {
            assert(sdv.take(n as int) =~= sdv);
            assert(keys@.len() == n);
        }
        let sorted = sort_indices_by_name(&matched, &keys);
        proof {
            assert(keys.deep_view() == lower_names(sdv));
        }
        self.entries = sorted;
    }
}

/// The catalog after population: each category filled with its sorted
/// membership, in catalog order, and categories with no members dropped.
pub open spec fn populate_spec(cats: Seq<CategoryModel>, store: Seq<EntryModel>) -> Seq<
    CategoryModel,
>
    decreases cats.len(),
{
    if cats.len() == 0 {
        Seq::empty()
    } else {
        let rest = populate_spec(cats.drop_last(), store);
        let members = members_sorted(store, cats.last().iden);
        if members.len() > 0 {
            rest + seq![
                (CategoryModel {
                    iden: cats.last().iden,
                    name: cats.last().name,
                    icon: cats.last().icon,
                    entries: members,
                }),
            ]
        } else {
            rest
        }
    }
}

/// Populates every catalog entry from the store and drops the categories
/// whose membership came out empty, keeping the catalog order.
pub fn populate(catalog: Vec<Category>, store: &Vec<DesktopEntry>) -> (r: Vec<Category>)
    requires
        forall|i: int| 0 <= i < catalog@.len() ==> (#[trigger] catalog@[i]).entries@.len() == 0,
    ensures
        r.deep_view() == populate_spec(catalog.deep_view(), store.deep_view()),
{
    let ghost orig = catalog.deep_view();
    let ghost sdv = store.deep_view();
    let mut rem = catalog;
    let mut out: Vec<Category> = Vec::new();
    let ghost mut i: int = 0;
    proof {
        assert(orig.take(0) =~= Seq::<CategoryModel>::empty());
        assert(rem.deep_view() =~= orig.skip(0));
        assert forall|k: int| 0 <= k < orig.len() implies (#[trigger] orig[k]).entries.len()
            == 0 by {
            assert(orig[k] == rem@[k].deep_view());
        }
    }
    while rem.len() > 0
        invariant
            sdv == store.deep_view(),
            0 <= i <= orig.len(),
            rem.deep_view() == orig.skip(i),
            rem@.len() == orig.len() - i,
            out.deep_view() == populate_spec(orig.take(i), sdv),
            forall|k: int| 0 <= k < orig.len() ==> (#[trigger] orig[k]).entries.len() == 0,
        decreases rem@.len(),
    {
        let ghost prev = rem.deep_view();
        let ghost prevv = rem@;
        let mut c = rem.remove(0);
        proof {
            assert(c.deep_view() == prev[0]);
            assert(prev[0] == orig[i]);
            assert(rem@ =~= prevv.skip(1));
            assert forall|k: int| 0 <= k < rem@.len() implies rem.deep_view()[k] == orig.skip(
                i + 1,
            )[k] by {
                assert(rem.deep_view()[k] == rem@[k].deep_view());
                assert(rem@[k] == prevv[k + 1]);
                assert(prev[k + 1] == prevv[k + 1].deep_view());
                assert(prev[k + 1] == orig.skip(i)[k + 1]);
                assert(orig.skip(i)[k + 1] == orig[i + 1 + k]);
                assert(orig.skip(i + 1)[k] == orig[i + 1 + k]);
            }
            assert(rem.deep_view() =~= orig.skip(i + 1));
            assert(c.entries@ == orig[i].entries);
        }
        c.add_entries(store);
        let ghost t = orig.take(i + 1);
        proof {
            assert(t.drop_last() =~= orig.take(i));
            assert(t.last() == orig[i]);
        }
        if c.entries.len() > 0 {
            let ghost out0 = out;
            proof {
                assert(c.deep_view() =~= (CategoryModel {
                    iden: orig[i].iden,
                    name: orig[i].name,
                    icon: orig[i].icon,
                    entries: members_sorted(sdv, orig[i].iden),
                }));
            }
            out.push(c);
            proof {
                crate::text::lemma_deep_view_push(out0, out, c);
                assert(out.deep_view() =~= populate_spec(t, sdv));
            }
        } else {
            proof {
                assert(members_sorted(sdv, orig[i].iden).len() == 0);
                assert(out.deep_view() =~= populate_spec(t, sdv));
            }
        }
        proof {
            i = i + 1;
        }
    }
    proof {
        assert(i == orig.len());
        assert(orig.take(i) =~= orig);
    }
    out
}

/// A category with no matching descriptors is absent from the populated
/// catalog: every category it holds has at least one member.
pub proof fn lemma_populate_no_empty(cats: Seq<CategoryModel>, store: Seq<EntryModel>)
    ensures
        forall|j: int|
            0 <= j < populate_spec(cats, store).len() ==> (#[trigger] populate_spec(cats, store)[j]).entries.len() > 0,
    decreases cats.len(),
{
    if cats.len() != 0 {
        lemma_populate_no_empty(cats.drop_last(), store);
        let rest = populate_spec(cats.drop_last(), store);
        let full = populate_spec(cats, store);
        let members = members_sorted(store, cats.last().iden);
        if members.len() > 0 {
            assert forall|j: int| 0 <= j < full.len() implies (#[trigger] full[j]).entries.len()
                > 0 by {
                if j < rest.len() {
                    assert(full[j] == rest[j]);
                } else {
                    assert(full[j].entries == members);
                }
            }
        }
    }
}

/// The fixed, hand-authored catalog: eleven categories, in display order,
/// each with its matching identifier and icon hint and no members yet.
pub fn default_catalog() -> (r: Vec<Category>)
    ensures
        r.deep_view().len() == 11,
        forall|i: int| 0 <= i < 11 ==> (#[trigger] r.deep_view()[i]).entries.len() == 0,
        r.deep_view()[0].iden == "utility"@ && r.deep_view()[0].name == "Accessories"@
            && r.deep_view()[0].icon == "applications-utilities"@,
        r.deep_view()[1].iden == "development"@ && r.deep_view()[1].name == "Development"@
            && r.deep_view()[1].icon == "applications-development"@,
        r.deep_view()[2].iden == "education"@ && r.deep_view()[2].name == "Education"@
            && r.deep_view()[2].icon == "applications-science"@,
        r.deep_view()[3].iden == "game"@ && r.deep_view()[3].name == "Games"@
            && r.deep_view()[3].icon == "applications-games"@,
        r.deep_view()[4].iden == "graphics"@ && r.deep_view()[4].name == "Graphics"@
            && r.deep_view()[4].icon == "applications-graphics"@,
        r.deep_view()[5].iden == "audiovideo"@ && r.deep_view()[5].name == "Multimedia"@
            && r.deep_view()[5].icon == "applications-multimedia"@,
        r.deep_view()[6].iden == "network"@ && r.deep_view()[6].name == "Network"@
            && r.deep_view()[6].icon == "applications-internet"@,
        r.deep_view()[7].iden == "office"@ && r.deep_view()[7].name == "Office"@
            && r.deep_view()[7].icon == "applications-office"@,
        r.deep_view()[8].iden == "other"@ && r.deep_view()[8].name == "Other"@
            && r.deep_view()[8].icon == "applications-other"@,
        r.deep_view()[9].iden == "settings"@ && r.deep_view()[9].name == "Settings"@
            && r.deep_view()[9].icon == "applications-accessories"@,
        r.deep_view()[10].iden == "system"@ && r.deep_view()[10].name == "System"@
            && r.deep_view()[10].icon == "applications-system"@,
{
    let mut r: Vec<Category> = Vec::new();
    r.push(Category::new("utility", "Accessories", "applications-utilities"));
    r.push(Category::new("development", "Development", "applications-development"));
    r.push(Category::new("education", "Education", "applications-science"));
    r.push(Category::new("game", "Games", "applications-games"));
    r.push(Category::new("graphics", "Graphics", "applications-graphics"));
    r.push(Category::new("audiovideo", "Multimedia", "applications-multimedia"));
    r.push(Category::new("network", "Network", "applications-internet"));
    r.push(Category::new("office", "Office", "applications-office"));
    r.push(Category::new("other", "Other", "applications-other"));
    r.push(Category::new("settings", "Settings", "applications-accessories"));
    r.push(Category::new("system", "System", "applications-system"));
    r
}

} // verus!
