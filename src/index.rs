//! The entry index: admitted launch descriptors, sorted by name.
use vstd::prelude::*;
use crate::text::chars_of;

verus! {

/// A raw launch-descriptor record, as a descriptor reader yields it.
#[derive(Clone, Debug)]
pub struct DescriptorRecord {
    pub name: Option<String>,
    pub exec_template: Option<String>,
    pub icon: Option<String>,
    pub description: Option<String>,
    pub no_display: bool,
}

/// A launchable application.
#[derive(Clone, Debug)]
pub struct AppInfo {
    pub name: String,
    pub exec_template: String,
    pub icon: String,
    pub description: String,
}

pub struct EntryView {
    pub name: Seq<char>,
    pub exec_template: Seq<char>,
    pub icon: Seq<char>,
    pub description: Seq<char>,
}

impl View for AppInfo {
    type V = EntryView;

    open spec fn view(&self) -> EntryView {
        EntryView {
            name: self.name@,
            exec_template: self.exec_template@,
            icon: self.icon@,
            description: self.description@,
        }
    }
}

impl AppInfo {
    /// A copy of this entry.
    pub fn duplicate(&self) -> (r: AppInfo)
        ensures
            r == *self,
    {
        AppInfo {
            name: self.name.clone(),
            exec_template: self.exec_template.clone(),
            icon: self.icon.clone(),
            description: self.description.clone(),
        }
    }
}

pub open spec fn placeholder_name() -> Seq<char> {
    seq!['U', 'n', 'k', 'n', 'o', 'w', 'n']
}

pub open spec fn text_or_empty(o: Option<String>) -> Seq<char> {
    match o {
        Some(s) => s@,
        None => seq![],
    }
}

/// A record is admitted when it is not hidden and has a non-empty command.
pub open spec fn admitted(r: DescriptorRecord) -> bool {
    !r.no_display && r.exec_template is Some && r.exec_template->Some_0@.len() > 0
}

/// The entry that a record gives.
pub open spec fn entry_view(r: DescriptorRecord) -> EntryView {
    EntryView {
        name: match r.name {
            Some(n) => n@,
            None => placeholder_name(),
        },
        exec_template: text_or_empty(r.exec_template),
        icon: text_or_empty(r.icon),
        description: text_or_empty(r.description),
    }
}

/// The entries of the admitted records, in the records' order.
pub open spec fn admitted_entries(rs: Seq<DescriptorRecord>) -> Seq<EntryView>
    decreases rs.len(),
{
    if rs.len() == 0 {
        seq![]
    } else {
        let rest = admitted_entries(rs.drop_last());
        if admitted(rs.last()) {
            rest.push(entry_view(rs.last()))
        } else {
            rest
        }
    }
}

/// Names as `String`'s ordering compares them: by code point, a proper
/// prefix first.
pub open spec fn name_lt(a: Seq<char>, b: Seq<char>) -> bool
    decreases a.len(),
{
    if a.len() == 0 {
        b.len() > 0
    } else if b.len() == 0 {
        false
    } else if a[0] != b[0] {
        (a[0] as u32) < (b[0] as u32)
    } else {
        name_lt(a.drop_first(), b.drop_first())
    }
}

pub uninterp spec fn lower_of(s: Seq<char>) -> Seq<char>;

/// Relies on `str::to_lowercase`: the lower-case form of `s`, which depends
/// on its characters alone.
#[verifier::external_body]
pub(crate) fn lowercase(s: &str) -> (r: String)
    ensures
        r@ == lower_of(s@),
{
    s.to_lowercase()
}

proof fn lemma_char_u32_injective(a: char, b: char)
    requires
        a as u32 == b as u32,
    ensures
        a == b,
{
}

proof fn lemma_name_lt_irreflexive(a: Seq<char>)
    ensures
        !name_lt(a, a),
    decreases a.len(),
{
    if a.len() > 0 {
        lemma_name_lt_irreflexive(a.drop_first());
    }
}

proof fn lemma_name_lt_asymmetric(a: Seq<char>, b: Seq<char>)
    requires
        name_lt(a, b),
    ensures
        !name_lt(b, a),
    decreases a.len(),
{
    if a.len() > 0 && b.len() > 0 && a[0] == b[0] {
        lemma_name_lt_asymmetric(a.drop_first(), b.drop_first());
    }
}

proof fn lemma_name_lt_transitive(a: Seq<char>, b: Seq<char>, c: Seq<char>)
    requires
        name_lt(a, b),
        name_lt(b, c),
    ensures
        name_lt(a, c),
    decreases a.len(),
{
    if a.len() > 0 && b.len() > 0 && c.len() > 0 && a[0] == b[0] && b[0] == c[0] {
        lemma_name_lt_transitive(a.drop_first(), b.drop_first(), c.drop_first());
    }
}

proof fn lemma_name_lt_total(a: Seq<char>, b: Seq<char>)
    requires
        a != b,
    ensures
        name_lt(a, b) || name_lt(b, a),
    decreases a.len(),
{
    if a.len() > 0 && b.len() > 0 && a[0] == b[0] {
        if a.drop_first() == b.drop_first() {
            assert(a =~= seq![a[0]] + a.drop_first());
            assert(b =~= seq![b[0]] + b.drop_first());
        }
        lemma_name_lt_total(a.drop_first(), b.drop_first());
    } else if a.len() == 0 && b.len() == 0 {
        assert(a =~= b);
    } else if a.len() > 0 && b.len() > 0 && a[0] as u32 == b[0] as u32 {
        lemma_char_u32_injective(a[0], b[0]);
    }
}

/// `i` stands before `j` in the name order: a smaller key, or an equal key
/// and an earlier place.
pub open spec fn name_before(keys: Seq<Seq<char>>, i: int, j: int) -> bool {
    name_lt(keys[i], keys[j]) || (keys[i] == keys[j] && i < j)
}

/// `pos` lists every place of `keys` once, in the name order.
pub open spec fn in_name_order(keys: Seq<Seq<char>>, pos: Seq<usize>) -> bool {
    &&& forall|k: int| 0 <= k < pos.len() ==> #[trigger] pos[k] < keys.len()
    &&& forall|k: int, l: int|
        0 <= k < l < pos.len() ==> name_before(keys, #[trigger] pos[k] as int, #[trigger] pos[l] as int)
    &&& forall|j: int| 0 <= j < keys.len() ==> #[trigger] is_listed(pos, j)
}

/// `j` is one of the places that `pos` lists.
pub open spec fn is_listed(pos: Seq<usize>, j: int) -> bool {
    exists|k: int| 0 <= k < pos.len() && pos[k] == j
}

fn name_less(a: &Vec<char>, b: &Vec<char>) -> (r: bool)
    ensures
        r == name_lt(a@, b@),
{
    let mut i: usize = 0;
    assert(a@.skip(0) =~= a@ && b@.skip(0) =~= b@);
    while i < a.len() && i < b.len() && a[i] == b[i]
        invariant
            i <= a@.len(),
            i <= b@.len(),
            name_lt(a@, b@) == name_lt(a@.skip(i as int), b@.skip(i as int)),
        decreases a@.len() - i,
    {
        assert(a@.skip(i as int).drop_first() =~= a@.skip(i + 1));
        assert(b@.skip(i as int).drop_first() =~= b@.skip(i + 1));
        i = i + 1;
    }
    if i == a.len() {
        i < b.len()
    } else if i == b.len() {
        false
    } else {
        (a[i] as u32) < (b[i] as u32)
    }
}

pub open spec fn key_views(keys: Seq<Vec<char>>) -> Seq<Seq<char>> {
    Seq::new(keys.len(), |i: int| keys[i]@)
}

/// The places of `keys` in the name order, a stable sort.
fn order_by_name(keys: &Vec<Vec<char>>) -> (pos: Vec<usize>)
    ensures
        in_name_order(key_views(keys@), pos@),
{
    let ghost ks = key_views(keys@);
    let mut out: Vec<usize> = Vec::new();
    let n = keys.len();
    let mut i: usize = 0;
    while i < n
        invariant
            i <= n == keys@.len() == ks.len(),
            ks == key_views(keys@),
            forall|k: int| 0 <= k < out@.len() ==> #[trigger] out@[k] < i,
            forall|k: int, l: int|
                0 <= k < l < out@.len() ==> name_before(ks, #[trigger] out@[k] as int, #[trigger] out@[l] as int),
            forall|j: int| 0 <= j < i ==> #[trigger] is_listed(out@, j),
        decreases n - i,
    {
        let mut p: usize = 0;
        while p < out.len() && !name_less(&keys[i], &keys[out[p]])
            invariant
                p <= out@.len(),
                i < n == keys@.len() == ks.len(),
                ks == key_views(keys@),
                forall|k: int| 0 <= k < out@.len() ==> #[trigger] out@[k] < i,
                forall|k: int| 0 <= k < p ==> !name_lt(ks[i as int], ks[#[trigger] out@[k] as int]),
            decreases out@.len() - p,
        {
            p = p + 1;
        }
        let ghost old_out = out@;
        out.insert(p, i);
        proof {
            assert(out@ == old_out.insert(p as int, i));
            assert forall|k: int| 0 <= k < out@.len() implies #[trigger] out@[k] < i + 1 by {
                if k < p {
                    assert(out@[k] == old_out[k]);
                } else if k > p {
                    assert(out@[k] == old_out[k - 1]);
                }
            }
            assert forall|k: int, l: int| 0 <= k < l < out@.len() implies name_before(
                ks,
                #[trigger] out@[k] as int,
                #[trigger] out@[l] as int,
            ) by {
                let ki = ks[i as int];
                if k == p {
                    let o = old_out[l - 1] as int;
                    assert(out@[l] == old_out[l - 1]);
                    assert(name_lt(ki, ks[old_out[p as int] as int]));
                    if l - 1 > p {
                        assert(name_before(ks, old_out[p as int] as int, old_out[l - 1] as int));
                        if name_lt(ks[old_out[p as int] as int], ks[o]) {
                            lemma_name_lt_transitive(ki, ks[old_out[p as int] as int], ks[o]);
                        }
                    }
                } else if l == p {
                    let o = old_out[k] as int;
                    assert(out@[k] == old_out[k]);
                    assert(!name_lt(ki, ks[o]));
                    if ks[o] != ki {
                        lemma_name_lt_total(ks[o], ki);
                    }
                } else if k < p && l < p {
                    assert(out@[k] == old_out[k] && out@[l] == old_out[l]);
                } else if k < p {
                    assert(out@[k] == old_out[k] && out@[l] == old_out[l - 1]);
                } else {
                    assert(out@[k] == old_out[k - 1] && out@[l] == old_out[l - 1]);
                }
            }
            assert forall|j: int| 0 <= j < i + 1 implies #[trigger] is_listed(out@, j) by {
                if j == i {
                    assert(out@[p as int] == j);
                } else {
                    assert(is_listed(old_out, j));
                    let k = choose|k: int| 0 <= k < old_out.len() && old_out[k] == j;
                    if k < p {
                        assert(out@[k] == j);
                    } else {
                        assert(out@[k + 1] == j);
                    }
                }
            }
        }
        i = i + 1;
    }
    out
}

pub open spec fn views(s: Seq<AppInfo>) -> Seq<EntryView> {
    Seq::new(s.len(), |i: int| s[i]@)
}

pub open spec fn lowered_names(es: Seq<EntryView>) -> Seq<Seq<char>> {
    Seq::new(es.len(), |i: int| lower_of(es[i].name))
}

/// `r` holds the entries `es` at the places that `pos` lists, in that order.
pub open spec fn arranged(es: Seq<EntryView>, pos: Seq<usize>, r: Seq<AppInfo>) -> bool {
    &&& r.len() == pos.len()
    &&& forall|k: int| 0 <= k < pos.len() ==> #[trigger] pos[k] < es.len()
    &&& forall|k: int| 0 <= k < r.len() ==> #[trigger] r[k]@ == es[pos[k] as int]
}

/// `r` is the index built from `records`: the admitted entries in a stable
/// sort by lower-cased name.
pub open spec fn is_index_of(records: Seq<DescriptorRecord>, r: Seq<AppInfo>) -> bool {
    let es = admitted_entries(records);
    exists|pos: Seq<usize>| #[trigger] in_name_order(lowered_names(es), pos) && arranged(es, pos, r)
}

/// `e` is the entry of one admitted record of `rs`.
pub open spec fn from_admitted(rs: Seq<DescriptorRecord>, e: EntryView) -> bool {
    exists|j: int| 0 <= j < rs.len() && admitted(rs[j]) && e == entry_view(rs[j])
}

/// Every entry that the records give comes from a record that is not hidden
/// and has a non-empty command, and so has a non-empty command itself.
pub proof fn lemma_admitted_entries_sound(rs: Seq<DescriptorRecord>)
    ensures
        forall|k: int|
            0 <= k < admitted_entries(rs).len() ==> from_admitted(rs, #[trigger] admitted_entries(rs)[k])
                && admitted_entries(rs)[k].exec_template.len() > 0,
    decreases rs.len(),
{
    if rs.len() > 0 {
        let prev = rs.drop_last();
        lemma_admitted_entries_sound(prev);
        assert forall|k: int| 0 <= k < admitted_entries(rs).len() implies from_admitted(
            rs,
            #[trigger] admitted_entries(rs)[k],
        ) && admitted_entries(rs)[k].exec_template.len() > 0 by {
            if k < admitted_entries(prev).len() {
                assert(admitted_entries(rs)[k] == admitted_entries(prev)[k]);
                assert(from_admitted(prev, admitted_entries(prev)[k]));
                let j = choose|j: int|
                    0 <= j < prev.len() && admitted(prev[j]) && admitted_entries(prev)[k]
                        == entry_view(prev[j]);
                assert(rs[j] == prev[j]);
            } else {
                assert(rs[rs.len() - 1] == rs.last());
            }
        }
    }
}

/// Builds the index: each admitted record becomes an entry (a missing name
/// shows as `Unknown`, a missing icon or description as empty text), and the
/// entries are sorted by lower-cased name, records with equal names keeping
/// their order.
pub fn build_index(records: Vec<DescriptorRecord>) -> (r: Vec<AppInfo>)
    ensures
        is_index_of(records@, r@),
        forall|i: int, j: int|
            0 <= i < j < r@.len() ==> !name_lt(
                lower_of(#[trigger] r@[j].name@),
                lower_of(#[trigger] r@[i].name@),
            ),
        forall|k: int| 0 <= k < r@.len() ==> from_admitted(records@, #[trigger] r@[k]@),
{
    let mut entries: Vec<AppInfo> = Vec::new();
    let mut i: usize = 0;
    while i < records.len()
        invariant
            i <= records@.len(),
            views(entries@) == admitted_entries(records@.take(i as int)),
        decreases records@.len() - i,
    {
        let rec = &records[i];
        let ghost before = views(entries@);
        assert(records@.take(i + 1).drop_last() =~= records@.take(i as int));
        assert(records@.take(i + 1).last() == records@[i as int]);
        let keep = match &rec.exec_template {
            Some(e) => !rec.no_display && !e.as_str().is_empty(),
            None => false,
        };
        if keep {
            let name = match &rec.name {
                Some(n) => n.clone(),
                None => {
                    proof {
                        reveal_strlit("Unknown");
                    }
                    let u = String::from_str("Unknown");
                    assert(u@ =~= placeholder_name());
                    u
                },
            };
            let exec_template = match &rec.exec_template {
                Some(e) => e.clone(),
                None => String::new(),
            };
            let icon = match &rec.icon {
                Some(t) => t.clone(),
                None => String::new(),
            };
            let description = match &rec.description {
                Some(t) => t.clone(),
                None => String::new(),
            };
            let e = AppInfo { name, exec_template, icon, description };
            assert(e@ == entry_view(records@[i as int]));
            entries.push(e);
            assert(views(entries@) =~= before.push(e@));
        }
        i = i + 1;
    }
    assert(records@.take(records@.len() as int) =~= records@);
    let ghost es = views(entries@);
    let mut keys: Vec<Vec<char>> = Vec::new();
    let mut k: usize = 0;
    while k < entries.len()
        invariant
            k <= entries@.len(),
            es == views(entries@),
            keys@.len() == k,
            forall|m: int| 0 <= m < k ==> (#[trigger] keys@[m])@ == lower_of(es[m].name),
        decreases entries@.len() - k,
    {
        let low = lowercase(entries[k].name.as_str());
        keys.push(chars_of(low.as_str()));
        k = k + 1;
    }
    let pos = order_by_name(&keys);
    assert(key_views(keys@) =~= lowered_names(es));
    let mut r: Vec<AppInfo> = Vec::new();
    let mut m: usize = 0;
    while m < pos.len()
        invariant
            m <= pos@.len(),
            in_name_order(lowered_names(es), pos@),
            es == views(entries@),
            r@.len() == m,
            forall|q: int| 0 <= q < m ==> #[trigger] r@[q]@ == es[pos@[q] as int],
        decreases pos@.len() - m,
    {
        assert(pos@[m as int] < es.len());
        r.push(entries[pos[m]].duplicate());
        m = m + 1;
    }
    proof {
        let ks = lowered_names(es);
        assert(arranged(es, pos@, r@));
        assert(in_name_order(ks, pos@));
        assert forall|i: int, j: int| 0 <= i < j < r@.len() implies !name_lt(
            lower_of(#[trigger] r@[j].name@),
            lower_of(#[trigger] r@[i].name@),
        ) by {
            assert(name_before(ks, pos@[i] as int, pos@[j] as int));
            assert(r@[i]@ == es[pos@[i] as int] && r@[j]@ == es[pos@[j] as int]);
            assert(r@[i]@.name == r@[i].name@ && r@[j]@.name == r@[j].name@);
            let a = ks[pos@[i] as int];
            let b = ks[pos@[j] as int];
            if name_lt(a, b) {
                lemma_name_lt_asymmetric(a, b);
            } else {
                lemma_name_lt_irreflexive(a);
            }
        }
        lemma_admitted_entries_sound(records@);
        assert forall|q: int| 0 <= q < r@.len() implies from_admitted(records@, #[trigger] r@[q]@) by {
            assert(r@[q]@ == admitted_entries(records@)[pos@[q] as int]);
        }
    }
    r
}

} // verus!
