//! What the tables of the virtual machine have in common: their bus, their lookups into memory,
//! and their traces.

use crate::alpha_powers::{AlphaPowers, AlphaPowersMut};
use crate::field::{kb, KoalaBear, Ring};
use std::collections::BTreeMap;
use vstd::prelude::*;
use vstd::std_specs::cmp::OrdSpec;
use vstd::std_specs::iter::IteratorSpec;

verus! {

/// The index of a column.
pub type ColIndex = usize;

/// A table, by its position in the order of all tables.
pub type Table = usize;

/// Separates memory from the other users of the lookup bus.
pub const LOGUP_MEMORY_DOMAINSEP: usize = 0;

/// Address of a lookup that follows from two columns:
/// `base + hi_coeff * col[hi_col] + col[lo_col]`.
#[derive(Clone, Copy, Debug)]
pub struct ComputedAddress {
    pub base: usize,
    pub hi_col: ColIndex,
    pub hi_coeff: usize,
    pub lo_col: ColIndex,
}

/// A lookup into memory: for every row, column `values[i]` holds what memory holds at the
/// row's index plus `address_offset + i`.
#[derive(Debug)]
pub struct LookupIntoMemory {
    /// The column with the address; ignored when the address is computed.
    pub index: ColIndex,
    pub values: Vec<ColIndex>,
    pub address_offset: usize,
    /// The lookup is active where all these columns are zero.
    pub conditional_inactive: Vec<ColIndex>,
    pub computed_address: Option<ComputedAddress>,
}

/// The contents of a [`LookupIntoMemory`].
pub struct LookupView {
    pub index: ColIndex,
    pub values: Seq<ColIndex>,
    pub address_offset: usize,
    pub conditional_inactive: Seq<ColIndex>,
    pub computed_address: Option<ComputedAddress>,
}

impl View for LookupIntoMemory {
    type V = LookupView;

    open spec fn view(&self) -> LookupView {
        LookupView {
            index: self.index,
            values: self.values@,
            address_offset: self.address_offset,
            conditional_inactive: self.conditional_inactive@,
            computed_address: self.computed_address,
        }
    }
}

#[derive(Clone, Copy, PartialEq, Eq, Structural, Debug)]
pub enum BusDirection {
    Pull,
    Push,
}

impl BusDirection {
    /// The sign of an interaction: a pull counts as minus one, a push as one.
    pub fn to_field_flag(self) -> (r: KoalaBear)
        ensures
            r == (match self {
                BusDirection::Pull => kb(-1),
                BusDirection::Push => kb(1),
            }),
    {
        match self {
            BusDirection::Pull => KoalaBear::neg_one(),
            BusDirection::Push => KoalaBear::one(),
        }
    }
}

#[derive(Clone, Copy, PartialEq, Eq, Structural, Debug)]
pub enum BusData {
    Column(ColIndex),
    ColumnPlusConstant(ColIndex, usize),
    Constant(usize),
}

impl BusData {
    /// The column the datum reads, if it reads one.
    pub fn column(self) -> (r: Option<ColIndex>)
        ensures
            r == (match self {
                BusData::Column(c) => Some(c),
                BusData::ColumnPlusConstant(c, _) => Some(c),
                BusData::Constant(_) => None::<ColIndex>,
            }),
    {
        match self {
            BusData::Column(c) => Some(c),
            BusData::ColumnPlusConstant(c, _) => Some(c),
            BusData::Constant(_) => None,
        }
    }
}

#[derive(Clone, Copy, PartialEq, Eq, Structural, Debug)]
pub enum BusMultiplicity {
    One,
    Column(ColIndex),
}

#[derive(Debug)]
pub struct BusInteraction {
    pub direction: BusDirection,
    pub multiplicity: BusMultiplicity,
    pub domainsep: BusData,
    pub data: Vec<BusData>,
}

/// The contents of a [`BusInteraction`].
pub struct InteractionView {
    pub direction: BusDirection,
    pub multiplicity: BusMultiplicity,
    pub domainsep: BusData,
    pub data: Seq<BusData>,
}

impl View for BusInteraction {
    type V = InteractionView;

    open spec fn view(&self) -> InteractionView {
        InteractionView {
            direction: self.direction,
            multiplicity: self.multiplicity,
            domainsep: self.domainsep,
            data: self.data@,
        }
    }
}

impl BusInteraction {
    pub fn is_memory_lookup(&self) -> (r: bool)
        ensures
            r == (self.domainsep == BusData::Constant(LOGUP_MEMORY_DOMAINSEP)),
    {
        match self.domainsep {
            BusData::Constant(c) => c == LOGUP_MEMORY_DOMAINSEP,
            _ => false,
        }
    }
}

/// The contents of a list of interactions.
pub open spec fn interactions(v: Seq<BusInteraction>) -> Seq<InteractionView> {
    v.map_values(|b: BusInteraction| b@)
}

/// The contents of a list of lookups.
pub open spec fn lookup_views(v: Seq<LookupIntoMemory>) -> Seq<LookupView> {
    v.map_values(|l: LookupIntoMemory| l@)
}

/// A push of `data` onto the memory bus.
pub open spec fn memory_push(data: Seq<BusData>) -> InteractionView {
    InteractionView {
        direction: BusDirection::Push,
        multiplicity: BusMultiplicity::One,
        domainsep: BusData::Constant(LOGUP_MEMORY_DOMAINSEP),
        data,
    }
}

/// A push onto the memory bus that reads the address from `address` and the value from the
/// column `value`.
pub(crate) fn memory_interaction(address: BusData, value: ColIndex) -> (r: BusInteraction)
    ensures
        r@ == memory_push(seq![address, BusData::Column(value)]),
{
    let data = vec![address, BusData::Column(value)];
    assert(data@ =~= seq![address, BusData::Column(value)]);
    BusInteraction {
        direction: BusDirection::Push,
        multiplicity: BusMultiplicity::One,
        domainsep: BusData::Constant(LOGUP_MEMORY_DOMAINSEP),
        data,
    }
}

/// The lookups of `n` consecutive memory cells: cell `i` from the address in column `idx_col`
/// on is held by column `values_start + i`.
pub fn memory_lookups_consecutive(idx_col: ColIndex, values_start: ColIndex, n: usize) -> (r: Vec<
    BusInteraction,
>)
    requires
        values_start + n <= usize::MAX,
    ensures
        interactions(r@) == Seq::new(
            n as nat,
            |i: int|
                memory_push(
                    seq![
                        BusData::ColumnPlusConstant(idx_col, i as usize),
                        BusData::Column((values_start + i) as usize),
                    ],
                ),
        ),
{
    let ghost all = Seq::new(
        n as nat,
        |i: int|
            memory_push(
                seq![
                    BusData::ColumnPlusConstant(idx_col, i as usize),
                    BusData::Column((values_start + i) as usize),
                ],
            ),
    );
    let mut out: Vec<BusInteraction> = Vec::new();
    let mut i: usize = 0;
    while i < n
        invariant
            i <= n,
            values_start + n <= usize::MAX,
            out@.len() == i,
            all == Seq::new(
                n as nat,
                |i: int|
                    memory_push(
                        seq![
                            BusData::ColumnPlusConstant(idx_col, i as usize),
                            BusData::Column((values_start + i) as usize),
                        ],
                    ),
            ),
            forall|j: int| 0 <= j < i ==> (#[trigger] out@[j])@ == all[j],
        decreases n - i,
    {
        out.push(memory_interaction(BusData::ColumnPlusConstant(idx_col, i), values_start + i));
        i += 1;
    }
    assert(interactions(out@) =~= all);
    out
}

#[derive(Debug)]
pub struct Bus {
    pub direction: BusDirection,
    pub selector: ColIndex,
    pub data: Vec<BusData>,
}

/// The contents of a [`Bus`].
pub struct BusView {
    pub direction: BusDirection,
    pub selector: ColIndex,
    pub data: Seq<BusData>,
}

impl View for Bus {
    type V = BusView;

    open spec fn view(&self) -> BusView {
        BusView { direction: self.direction, selector: self.selector, data: self.data@ }
    }
}

/// The columns of a table, and how many of their rows are in use.
#[derive(Debug)]
pub struct TableTrace {
    pub columns: Vec<Vec<KoalaBear>>,
    pub non_padded_n_rows: usize,
    pub log_n_rows: usize,
}

impl TableTrace {
    /// A trace without rows. The two counts are filled in once the rows are there.
    pub fn new<A: TableT>(air: &A) -> (r: Self)
        ensures
            r.columns@.len() == air.total_columns(),
            forall|c: int| 0 <= c < r.columns@.len() ==> (#[trigger] r.columns@[c])@.len() == 0,
            r.non_padded_n_rows == 0,
            r.log_n_rows == 0,
    {
        let n: usize = air.n_columns_total();
        let mut columns: Vec<Vec<KoalaBear>> = Vec::new();
        let mut i: usize = 0;
        while i < n
            invariant
                i <= n,
                columns@.len() == i,
                forall|c: int| 0 <= c < i ==> (#[trigger] columns@[c])@.len() == 0,
            decreases n - i,
        {
            columns.push(Vec::new());
            i += 1;
        }
        TableTrace { columns, non_padded_n_rows: 0, log_n_rows: 0 }
    }
}

/// The tables are ordered by descending height, and those of equal height by their position.
pub open spec fn ordered_by_height(s: Seq<(Table, usize)>) -> bool {
    forall|i: int, j: int|
        #![trigger s[i], s[j]]
        0 <= i < j < s.len() ==> s[i].1 > s[j].1 || s[i].1 == s[j].1 && s[i].0 < s[j].0
}

/// The entries of `s` are those of the map `m`.
pub open spec fn same_entries<V>(s: Seq<(Table, V)>, m: Map<Table, V>) -> bool {
    &&& forall|i: int|
        0 <= i < s.len() ==> m.dom().contains((#[trigger] s[i]).0) && m[s[i].0] == s[i].1
    &&& forall|k: Table| m.dom().contains(k) ==> s.contains((k, #[trigger] m[k]))
}

/// The tables of a map with their heights, highest first.
pub open spec fn tables_by_height(m: Map<Table, usize>) -> Seq<(Table, usize)> {
    choose|s: Seq<(Table, usize)>| #[trigger] ordered_by_height(s) && same_entries(s, m)
}

/// There is one order of a map's entries by height.
pub proof fn law_height_order_unique(
    s: Seq<(Table, usize)>,
    t: Seq<(Table, usize)>,
    m: Map<Table, usize>,
)
    requires
        ordered_by_height(s),
        same_entries(s, m),
        ordered_by_height(t),
        same_entries(t, m),
    ensures
        s == t,
    decreases s.len(),
{
    if s.len() == 0 {
        if t.len() > 0 {
            assert(m.dom().contains(t[0].0));
            assert(s.contains((t[0].0, m[t[0].0])));
        }
        assert(s =~= t);
    } else {
        assert(m.dom().contains(s[0].0));
        assert(t.contains((s[0].0, m[s[0].0])));
        let j = t.index_of(s[0]);
        assert(t[j] == s[0]);
        assert(m.dom().contains(t[0].0));
        assert(s.contains((t[0].0, m[t[0].0])));
        let i = s.index_of(t[0]);
        assert(s[i] == t[0]);
        assert(s[0] == t[0]) by {
            if i > 0 && j > 0 {
                assert(s[0].1 > s[i].1 || s[0].1 == s[i].1 && s[0].0 < s[i].0);
                assert(t[0].1 > t[j].1 || t[0].1 == t[j].1 && t[0].0 < t[j].0);
            }
        }
        let rest = m.remove(s[0].0);
        lemma_rest_entries(s, m);
        lemma_rest_entries(t, m);
        law_height_order_unique(s.drop_first(), t.drop_first(), rest);
        assert(s =~= seq![s[0]] + s.drop_first());
        assert(t =~= seq![t[0]] + t.drop_first());
    }
}

proof fn lemma_rest_entries(s: Seq<(Table, usize)>, m: Map<Table, usize>)
    requires
        s.len() > 0,
        ordered_by_height(s),
        same_entries(s, m),
    ensures
        ordered_by_height(s.drop_first()),
        same_entries(s.drop_first(), m.remove(s[0].0)),
{
    let d = s.drop_first();
    let rest = m.remove(s[0].0);
    assert forall|i: int| 0 <= i < d.len() implies rest.dom().contains((#[trigger] d[i]).0)
        && rest[d[i].0] == d[i].1 by {
        assert(d[i] == s[i + 1]);
        assert(s[0].1 > s[i + 1].1 || s[0].1 == s[i + 1].1 && s[0].0 < s[i + 1].0);
        if s[i + 1].0 == s[0].0 {
            assert(m[s[0].0] == s[0].1 && m[s[i + 1].0] == s[i + 1].1);
        }
    }
    assert forall|k: Table| rest.dom().contains(k) implies d.contains((k, #[trigger] rest[k])) by {
        assert(s.contains((k, m[k])));
        let i = s.index_of((k, m[k]));
        assert(s[i] == (k, m[k]));
        assert(i > 0);
        assert(d[i - 1] == (k, rest[k]));
    }
    assert forall|i: int, j: int|
        #![trigger d[i], d[j]]
        0 <= i < j < d.len() implies d[i].1 > d[j].1 || d[i].1 == d[j].1 && d[i].0 < d[j].0 by {
        assert(d[i] == s[i + 1] && d[j] == s[j + 1]);
    }
}

/// The keys ascend.
pub open spec fn keys_ascend<V>(s: Seq<(Table, V)>) -> bool {
    forall|i: int, j: int| 0 <= i < j < s.len() ==> (#[trigger] s[i]).0 < (#[trigger] s[j]).0
}

/// The entries of a map in the order of their keys.
pub open spec fn in_key_order<V>(m: Map<Table, V>) -> Seq<(Table, V)> {
    choose|s: Seq<(Table, V)>| #[trigger] keys_ascend(s) && same_entries(s, m)
}

/// There is one order of a map's entries by key.
pub proof fn law_key_order_unique<V>(s: Seq<(Table, V)>, t: Seq<(Table, V)>, m: Map<Table, V>)
    requires
        keys_ascend(s),
        same_entries(s, m),
        keys_ascend(t),
        same_entries(t, m),
    ensures
        s == t,
    decreases s.len(),
{
    if s.len() == 0 {
        if t.len() > 0 {
            assert(m.dom().contains(t[0].0));
            assert(s.contains((t[0].0, m[t[0].0])));
        }
        assert(s =~= t);
    } else {
        assert(m.dom().contains(s[0].0));
        assert(t.contains((s[0].0, m[s[0].0])));
        let j = t.index_of(s[0]);
        assert(t[j] == s[0]);
        assert(m.dom().contains(t[0].0));
        assert(s.contains((t[0].0, m[t[0].0])));
        let i = s.index_of(t[0]);
        assert(s[i] == t[0]);
        assert(s[0] == t[0]) by {
            if i > 0 && j > 0 {
                assert(s[0].0 < s[i].0);
                assert(t[0].0 < t[j].0);
            }
        }
        lemma_rest_in_key_order(s, m);
        lemma_rest_in_key_order(t, m);
        law_key_order_unique(s.drop_first(), t.drop_first(), m.remove(s[0].0));
        assert(s =~= seq![s[0]] + s.drop_first());
        assert(t =~= seq![t[0]] + t.drop_first());
    }
}

/// The entries of a map in the order of their keys are all its entries, each once, and their keys
/// ascend.
pub proof fn law_key_order<V>(m: Map<Table, V>)
    ensures
        forall|i: int, j: int|
            0 <= i < j < in_key_order(m).len() ==> (#[trigger] in_key_order(m)[i]).0 < (
            #[trigger] in_key_order(m)[j]).0,
        forall|i: int|
            0 <= i < in_key_order(m).len() ==> m.dom().contains(
                (#[trigger] in_key_order(m)[i]).0,
            ) && m[in_key_order(m)[i].0] == in_key_order(m)[i].1,
        forall|k: Table|
            m.dom().contains(k) ==> in_key_order(m).contains((k, #[trigger] m[k])),
{
    lemma_key_order_exists(m, usize::MAX as nat + 1);
}

/// Entries whose keys are below a bound can be put in the order of their keys.
proof fn lemma_key_order_exists<V>(m: Map<Table, V>, bound: nat)
    requires
        bound <= usize::MAX + 1,
        forall|k: Table| #[trigger] m.dom().contains(k) ==> k < bound,
    ensures
        exists|s: Seq<(Table, V)>| #[trigger] keys_ascend(s) && same_entries(s, m),
    decreases bound,
{
    if bound == 0 {
        let s = Seq::<(Table, V)>::empty();
        assert(keys_ascend(s) && same_entries(s, m));
    } else {
        let top = (bound - 1) as usize;
        if m.dom().contains(top) {
            let rest = m.remove(top);
            lemma_key_order_exists(rest, (bound - 1) as nat);
            let s = choose|s: Seq<(Table, V)>| #[trigger] keys_ascend(s) && same_entries(s, rest);
            let t = s.push((top, m[top]));
            assert forall|i: int, j: int| 0 <= i < j < t.len() implies (#[trigger] t[i]).0 < (
            #[trigger] t[j]).0 by {
                assert(t[i] == s[i]);
                assert(rest.dom().contains(s[i].0));
            }
            assert forall|i: int| 0 <= i < t.len() implies m.dom().contains((#[trigger] t[i]).0)
                && m[t[i].0] == t[i].1 by {
                if i < s.len() {
                    assert(t[i] == s[i]);
                    assert(rest.dom().contains(s[i].0) && rest[s[i].0] == s[i].1);
                }
            }
            assert forall|k: Table| m.dom().contains(k) implies t.contains((k, #[trigger] m[k])) by {
                if k == top {
                    assert(t[s.len() as int] == (k, m[k]));
                } else {
                    assert(s.contains((k, rest[k])));
                    let i = s.index_of((k, rest[k]));
                    assert(t[i] == (k, m[k]));
                }
            }
            assert(keys_ascend(t) && same_entries(t, m));
        } else {
            lemma_key_order_exists(m, (bound - 1) as nat);
        }
    }
}

proof fn lemma_rest_in_key_order<V>(s: Seq<(Table, V)>, m: Map<Table, V>)
    requires
        s.len() > 0,
        keys_ascend(s),
        same_entries(s, m),
    ensures
        keys_ascend(s.drop_first()),
        same_entries(s.drop_first(), m.remove(s[0].0)),
{
    let d = s.drop_first();
    let rest = m.remove(s[0].0);
    assert forall|i: int| 0 <= i < d.len() implies rest.dom().contains((#[trigger] d[i]).0)
        && rest[d[i].0] == d[i].1 by {
        assert(d[i] == s[i + 1]);
        assert(s[0].0 < s[i + 1].0);
    }
    assert forall|k: Table| rest.dom().contains(k) implies d.contains((k, #[trigger] rest[k])) by {
        assert(s.contains((k, m[k])));
        let i = s.index_of((k, m[k]));
        assert(s[i] == (k, m[k]));
        assert(i > 0);
        assert(d[i - 1] == (k, rest[k]));
    }
    assert forall|i: int, j: int| 0 <= i < j < d.len() implies (#[trigger] d[i]).0 < (
    #[trigger] d[j]).0 by {
        assert(d[i] == s[i + 1] && d[j] == s[j + 1]);
    }
}

/// The entries of a map in the order of their keys.
pub fn entries_in_order<V>(m: &BTreeMap<Table, V>) -> (r: Vec<(Table, &V)>)
    ensures
        keys_ascend(r@),
        forall|i: int|
            0 <= i < r@.len() ==> m@.dom().contains((#[trigger] r@[i]).0) && m@[r@[i].0]
                == *r@[i].1,
        forall|k: Table| m@.dom().contains(k) ==> r@.contains((k, &(#[trigger] m@[k]))),
        r@.len() == in_key_order(m@).len(),
        forall|i: int|
            0 <= i < r@.len() ==> in_key_order(m@)[i] == ((#[trigger] r@[i]).0, *r@[i].1),
{
    broadcast use vstd::std_specs::btree::group_btree_axioms;
    broadcast use vstd::laws_cmp::group_laws_cmp;

    let iter = m.iter();
    let ghost all = iter.remaining();
    let ghost keys = all.map_values(|kv: (&usize, &V)| *kv.0);
    proof {
        assert(vstd::std_specs::btree::increasing_seq(keys));
        assert forall|i: int, j: int| 0 <= i < j < all.len() implies *(#[trigger] all[i]).0
            < *(#[trigger] all[j]).0 by {
            assert(keys[i].cmp_spec(&keys[j]) is Less);
        }
    }
    let mut out: Vec<(Table, &V)> = Vec::new();
    for p in it: iter
        invariant
            it.seq() == all,
            out@.len() == it.index(),
            forall|i: int| 0 <= i < out@.len() ==> #[trigger] out@[i] == (*all[i].0, all[i].1),
    {
        let (k, v) = p;
        out.push((*k, v));
    }
    proof {
        assert forall|k: Table| m@.dom().contains(k) implies out@.contains(
            (k, &(#[trigger] m@[k])),
        ) by {
            assert(m@.contains_key(k));
            let i = choose|i: int| 0 <= i < all.len() && all[i] == (&k, &m@[k]);
            assert(out@[i] == (k, &m@[k]));
        }
        let plain = Seq::new(out@.len(), |i: int| (out@[i].0, *out@[i].1));
        assert forall|k: Table| m@.dom().contains(k) implies plain.contains(
            (k, #[trigger] m@[k]),
        ) by {
            let i = out@.index_of((k, &m@[k]));
            assert(out@.contains((k, &m@[k])));
            assert(plain[i] == (k, m@[k]));
        }
        assert forall|i: int, j: int| 0 <= i < j < plain.len() implies (#[trigger] plain[i]).0 < (
        #[trigger] plain[j]).0 by {
            assert(out@[i].0 < out@[j].0);
        }
        assert(keys_ascend(plain) && same_entries(plain, m@));
        law_key_order_unique(plain, in_key_order(m@), m@);
    }
    out
}

/// The entry of a map under a key.
pub fn entry_of<V>(m: &BTreeMap<Table, V>, t: Table) -> (r: Option<&V>)
    ensures
        match r {
            Some(v) => m@.dom().contains(t) && *v == m@[t],
            None => !m@.dom().contains(t),
        },
{
    broadcast use vstd::std_specs::btree::group_btree_axioms;
    broadcast use vstd::laws_cmp::group_laws_cmp;

    m.get(&t)
}

/// Puts `entry` behind the entries that are at least as high.
fn insert_by_height(sorted: &mut Vec<(Table, usize)>, entry: (Table, usize))
    requires
        ordered_by_height(old(sorted)@),
        forall|i: int| 0 <= i < old(sorted)@.len() ==> (#[trigger] old(sorted)@[i]).0 < entry.0,
    ensures
        ordered_by_height(final(sorted)@),
        exists|p: int|
            0 <= p <= old(sorted)@.len() && final(sorted)@ == #[trigger] old(sorted)@.insert(
                p,
                entry,
            ),
{
    let mut p: usize = 0;
    while p < sorted.len() && sorted[p].1 >= entry.1
        invariant
            p <= sorted@.len(),
            forall|i: int| 0 <= i < p ==> (#[trigger] sorted@[i]).1 >= entry.1,
        decreases sorted@.len() - p,
    {
        p += 1;
    }
    let ghost before = sorted@;
    sorted.insert(p, entry);
    proof {
        assert(sorted@ == before.insert(p as int, entry));
        assert forall|i: int, j: int|
            #![trigger sorted@[i], sorted@[j]]
            0 <= i < j < sorted@.len() implies sorted@[i].1 > sorted@[j].1 || sorted@[i].1
            == sorted@[j].1 && sorted@[i].0 < sorted@[j].0 by {
            if i == p {
                assert(sorted@[j] == before[j - 1]);
                if p < before.len() && p < j - 1 {
                    assert(before[p as int].1 >= before[j - 1].1);
                }
            } else if j == p {
                assert(sorted@[i] == before[i]);
            } else {
                let i0 = if i < p {
                    i
                } else {
                    i - 1
                };
                let j0 = if j < p {
                    j
                } else {
                    j - 1
                };
                assert(sorted@[i] == before[i0] && sorted@[j] == before[j0]);
            }
        }
    }
}

/// The tables with their heights, highest first. Tables of equal height keep their order.
pub fn sort_tables_by_height(tables_log_heights: &BTreeMap<Table, usize>) -> (r: Vec<
    (Table, usize),
>)
    ensures
        r@ == tables_by_height(tables_log_heights@),
        ordered_by_height(r@),
        same_entries(r@, tables_log_heights@),
        forall|i: int, j: int|
            #![trigger r@[i], r@[j]]
            0 <= i < j < r@.len() ==> r@[i].1 > r@[j].1 || r@[i].1 == r@[j].1 && r@[i].0 < r@[j].0,
        forall|k: Table, h: usize|
            r@.contains((k, h)) <==> #[trigger] tables_log_heights@.contains_pair(k, h),
{
    let refs = entries_in_order(tables_log_heights);
    let mut entries: Vec<(Table, usize)> = Vec::new();
    let mut e: usize = 0;
    while e < refs.len()
        invariant
            e <= refs@.len(),
            entries@.len() == e,
            forall|j: int| 0 <= j < e ==> #[trigger] entries@[j] == (refs@[j].0, *refs@[j].1),
        decreases refs@.len() - e,
    {
        entries.push((refs[e].0, *refs[e].1));
        e += 1;
    }
    proof {
        let m = tables_log_heights@;
        assert forall|k: Table| m.dom().contains(k) implies entries@.contains(
            (k, #[trigger] m[k]),
        ) by {
            let j = refs@.index_of((k, &m[k]));
            assert(refs@.contains((k, &m[k])));
            assert(entries@[j] == (k, m[k]));
        }
    }
    let sorted = sort_entries(&entries);
    proof {
        let m = tables_log_heights@;
        assert forall|k: Table| m.dom().contains(k) implies sorted@.contains(
            (k, #[trigger] m[k]),
        ) by {
            let j = entries@.index_of((k, m[k]));
            assert(entries@.contains((k, m[k])));
            assert(entries@[j] == (k, m[k]));
        }
        assert forall|j: int| 0 <= j < sorted@.len() implies m.dom().contains(
            (#[trigger] sorted@[j]).0,
        ) && m[sorted@[j].0] == sorted@[j].1 by {
            let k = entries@.index_of(sorted@[j]);
            assert(entries@.contains(sorted@[j]));
            assert(entries@[k] == sorted@[j]);
            assert(refs@[k].0 == sorted@[j].0);
        }
        law_height_order_unique(sorted@, tables_by_height(m), m);
    }
    sorted
}

/// Entries with ascending keys, highest first.
pub fn sort_entries(entries: &Vec<(Table, usize)>) -> (sorted: Vec<(Table, usize)>)
    requires
        keys_ascend(entries@),
    ensures
        ordered_by_height(sorted@),
        forall|j: int| 0 <= j < entries@.len() ==> sorted@.contains(#[trigger] entries@[j]),
        forall|j: int| 0 <= j < sorted@.len() ==> entries@.contains(#[trigger] sorted@[j]),
{
    let mut sorted: Vec<(Table, usize)> = Vec::new();
    let mut i: usize = 0;
    while i < entries.len()
        invariant
            i <= entries@.len(),
            forall|i: int, j: int|
                0 <= i < j < entries@.len() ==> (#[trigger] entries@[i]).0 < (
                #[trigger] entries@[j]).0,
            ordered_by_height(sorted@),
            forall|j: int| 0 <= j < i ==> sorted@.contains(#[trigger] entries@[j]),
            forall|j: int|
                0 <= j < sorted@.len() ==> exists|k: int|
                    0 <= k < i && #[trigger] entries@[k] == #[trigger] sorted@[j],
        decreases entries@.len() - i,
    {
        let ghost before = sorted@;
        let entry = entries[i];
        insert_by_height(&mut sorted, entry);
        proof {
            let p = choose|p: int|
                0 <= p <= before.len() && sorted@ == #[trigger] before.insert(p, entry);
            assert forall|j: int| 0 <= j < i + 1 implies sorted@.contains(#[trigger] entries@[j]) by {
                if j == i {
                    assert(sorted@[p] == entry);
                } else {
                    let k = before.index_of(entries@[j]);
                    assert(before.contains(entries@[j]));
                    assert(sorted@[if k < p { k } else { k + 1 }] == entries@[j]);
                }
            }
            assert forall|j: int| 0 <= j < sorted@.len() implies exists|k: int|
                0 <= k < i + 1 && #[trigger] entries@[k] == #[trigger] sorted@[j] by {
                if j == p {
                    assert(entries@[i as int] == sorted@[j]);
                } else {
                    assert(sorted@[j] == before[if j < p { j } else { j - 1 }]);
                }
            }
        }
        i += 1;
    }
    proof {
        assert forall|j: int| 0 <= j < sorted@.len() implies entries@.contains(
            #[trigger] sorted@[j],
        ) by {
            let k = choose|k: int|
                0 <= k < i && #[trigger] entries@[k] == sorted@[j];
            assert(entries@[k] == sorted@[j]);
        }
    }
    sorted
}

/// What the bus constraints need besides the row: the powers of the lookup challenges and the
/// bus challenge, each also repeated in every lane of a packed value, and the powers of the
/// batching challenge.
#[derive(Debug)]
pub struct ExtraDataForBuses<EF, const WIDTH: usize> {
    pub logup_alphas_eq_poly: Vec<EF>,
    pub logup_alphas_eq_poly_packed: Vec<[EF; WIDTH]>,
    pub bus_beta: EF,
    pub bus_beta_packed: [EF; WIDTH],
    pub alpha_powers: Vec<EF>,
}

/// `lanes` holds `x` in every lane.
pub open spec fn all_lanes<EF, const WIDTH: usize>(lanes: [EF; WIDTH], x: EF) -> bool {
    forall|i: int| 0 <= i < WIDTH ==> #[trigger] lanes@[i] == x
}

impl<EF: Copy, const WIDTH: usize> ExtraDataForBuses<EF, WIDTH> {
    /// The packed fields repeat the plain ones.
    pub open spec fn consistent(self) -> bool {
        &&& self.logup_alphas_eq_poly_packed@.len() == self.logup_alphas_eq_poly@.len()
        &&& forall|i: int|
            0 <= i < self.logup_alphas_eq_poly@.len() ==> all_lanes(
                #[trigger] self.logup_alphas_eq_poly_packed@[i],
                self.logup_alphas_eq_poly@[i],
            )
        &&& all_lanes(self.bus_beta_packed, self.bus_beta)
    }

    pub fn new(logup_alphas_eq_poly: Vec<EF>, bus_beta: EF, alpha_powers: Vec<EF>) -> (r: Self)
        ensures
            r.logup_alphas_eq_poly@ == logup_alphas_eq_poly@,
            r.bus_beta == bus_beta,
            r.alpha_powers@ == alpha_powers@,
            r.consistent(),
    {
        let mut packed: Vec<[EF; WIDTH]> = Vec::new();
        let mut i: usize = 0;
        while i < logup_alphas_eq_poly.len()
            invariant
                i <= logup_alphas_eq_poly@.len(),
                packed@.len() == i,
                forall|j: int|
                    0 <= j < i ==> all_lanes(#[trigger] packed@[j], logup_alphas_eq_poly@[j]),
            decreases logup_alphas_eq_poly@.len() - i,
        {
            packed.push([logup_alphas_eq_poly[i];WIDTH]);
            i += 1;
        }
        ExtraDataForBuses {
            logup_alphas_eq_poly,
            logup_alphas_eq_poly_packed: packed,
            bus_beta,
            bus_beta_packed: [bus_beta;WIDTH],
            alpha_powers,
        }
    }

    /// The lookup challenges and the bus challenge, for folding unpacked rows.
    pub fn bus_data(&self) -> (r: (&Vec<EF>, &EF))
        ensures
            *r.0 == self.logup_alphas_eq_poly,
            *r.1 == self.bus_beta,
    {
        (&self.logup_alphas_eq_poly, &self.bus_beta)
    }

    /// The lookup challenges and the bus challenge, for folding packed rows.
    pub fn bus_data_packed(&self) -> (r: (&Vec<[EF; WIDTH]>, &[EF; WIDTH]))
        ensures
            *r.0 == self.logup_alphas_eq_poly_packed,
            *r.1 == self.bus_beta_packed,
    {
        (&self.logup_alphas_eq_poly_packed, &self.bus_beta_packed)
    }
}

impl<EF, const WIDTH: usize> AlphaPowers<EF> for ExtraDataForBuses<EF, WIDTH> {
    open spec fn powers(&self) -> Seq<EF> {
        self.alpha_powers@
    }

    fn alpha_powers(&self) -> (r: &[EF]) {
        self.alpha_powers.as_slice()
    }
}

impl<EF, const WIDTH: usize> AlphaPowersMut<EF> for ExtraDataForBuses<EF, WIDTH> {
    fn alpha_powers_mut(&mut self) -> (r: &mut Vec<EF>) {
        &mut self.alpha_powers
    }
}

/// The interactions that a bus and the memory lookups of a table stand for.
///
/// The last datum of the bus separates it from others. A lookup whose address is computed gives
/// no address here: a table with such lookups lists its interactions itself.
pub open spec fn default_interactions(bus: BusView, lookups: Seq<LookupView>) -> Seq<
    InteractionView,
> {
    seq![bus_interaction(bus)] + lookups_interactions(lookups)
}

pub open spec fn bus_interaction(bus: BusView) -> InteractionView {
    InteractionView {
        direction: bus.direction,
        multiplicity: BusMultiplicity::Column(bus.selector),
        domainsep: if bus.data.len() == 0 {
            BusData::Constant(0)
        } else {
            bus.data.last()
        },
        data: if bus.data.len() == 0 {
            bus.data
        } else {
            bus.data.drop_last()
        },
    }
}

pub open spec fn lookups_interactions(lookups: Seq<LookupView>) -> Seq<InteractionView>
    decreases lookups.len(),
{
    if lookups.len() == 0 {
        Seq::empty()
    } else {
        lookups_interactions(lookups.drop_last()) + lookup_interactions(lookups.last())
    }
}

/// One push onto the memory bus for each value column.
pub open spec fn lookup_interactions(l: LookupView) -> Seq<InteractionView> {
    Seq::new(
        l.values.len(),
        |i: int|
            memory_push(
                match l.computed_address {
                    Some(_) => seq![BusData::Column(l.values[i])],
                    None => seq![
                        BusData::ColumnPlusConstant(l.index, (l.address_offset + i) as usize),
                        BusData::Column(l.values[i]),
                    ],
                },
            ),
    )
}

/// No address offset of the lookup overflows.
pub open spec fn lookup_offsets_fit(l: LookupView) -> bool {
    l.address_offset + l.values.len() <= usize::MAX
}

/// Appends the interactions of one lookup.
fn push_lookup(interactions_out: &mut Vec<BusInteraction>, lookup: &LookupIntoMemory)
    requires
        lookup_offsets_fit(lookup@),
    ensures
        interactions(final(interactions_out)@) == interactions(old(interactions_out)@)
            + lookup_interactions(lookup@),
{
    let ghost start = interactions_out@;
    let ghost all = lookup_interactions(lookup@);
    let mut i: usize = 0;
    while i < lookup.values.len()
        invariant
            i <= lookup.values@.len(),
            lookup_offsets_fit(lookup@),
            all == lookup_interactions(lookup@),
            interactions_out@.len() == start.len() + i,
            forall|j: int| 0 <= j < start.len() ==> interactions_out@[j] == start[j],
            forall|j: int|
                start.len() <= j < start.len() + i ==> (#[trigger] interactions_out@[j])@ == all[j
                    - start.len()],
        decreases lookup.values@.len() - i,
    {
        let value: ColIndex = lookup.values[i];
        match lookup.computed_address {
            Some(_) => {
                let data = vec![BusData::Column(value)];
                assert(data@ =~= seq![BusData::Column(value)]);
                interactions_out.push(
                    BusInteraction {
                        direction: BusDirection::Push,
                        multiplicity: BusMultiplicity::One,
                        domainsep: BusData::Constant(LOGUP_MEMORY_DOMAINSEP),
                        data,
                    },
                );
            },
            None => {
                interactions_out.push(
                    memory_interaction(
                        BusData::ColumnPlusConstant(lookup.index, lookup.address_offset + i),
                        value,
                    ),
                );
            },
        }
        i += 1;
    }
    assert(interactions(interactions_out@) =~= interactions(start) + all);
}

pub open spec fn all_offsets_fit(lookups: Seq<LookupView>) -> bool {
    forall|i: int| 0 <= i < lookups.len() ==> lookup_offsets_fit(#[trigger] lookups[i])
}

/// A table of the virtual machine. The columns its constraints read come first.
pub trait TableT: Sized {
    spec fn lookups_spec(&self) -> Seq<LookupView>;

    spec fn bus_spec(&self) -> BusView;

    /// Committed columns and those virtual ones that are kept in memory.
    spec fn total_columns(&self) -> int;

    /// The cells of a row that stands for no call.
    spec fn padding_cells(
        &self,
        zero_vec_ptr: int,
        null_hash_ptr: int,
        null_blake3_hash_ptr: int,
    ) -> Seq<KoalaBear>;

    /// The pointers for which there is a padding row.
    spec fn pads(&self, zero_vec_ptr: int) -> bool;

    /// The interactions of a row with the bus.
    spec fn interactions_spec(&self) -> Seq<InteractionView>;

    /// The addresses of all interactions can be written down.
    spec fn offsets_fit(&self) -> bool;

    spec fn execution_table(&self) -> bool;

    /// The table's position.
    spec fn position(&self) -> Table;

    spec fn label(&self) -> Seq<char>;

    fn name(&self) -> (r: &'static str)
        ensures
            r@ == self.label(),
    ;

    fn table(&self) -> (r: Table)
        ensures
            r == self.position(),
    ;

    fn lookups(&self) -> (r: Vec<LookupIntoMemory>)
        ensures
            lookup_views(r@) == self.lookups_spec(),
    ;

    fn bus(&self) -> (r: Bus)
        ensures
            r@ == self.bus_spec(),
    ;

    fn n_columns_total(&self) -> (r: usize)
        ensures
            r == self.total_columns(),
    ;

    fn is_execution_table(&self) -> (r: bool)
        ensures
            r == self.execution_table(),
    ;

    fn padding_row(
        &self,
        zero_vec_ptr: usize,
        null_hash_ptr: usize,
        null_blake3_hash_ptr: usize,
    ) -> (r: Vec<KoalaBear>)
        requires
            self.pads(zero_vec_ptr as int),
        ensures
            r@ == self.padding_cells(
                zero_vec_ptr as int,
                null_hash_ptr as int,
                null_blake3_hash_ptr as int,
            ),
    ;

    /// The interactions of a row with the bus. `default_bus_interactions` makes them from the bus
    /// and the lookups.
    fn bus_interactions(&self) -> (r: Vec<BusInteraction>)
        requires
            self.offsets_fit(),
        ensures
            interactions(r@) == self.interactions_spec(),
    ;

    /// The columns with the addresses of the lookups.
    fn lookup_index_columns<'a>(&self, trace: &'a TableTrace) -> (r: Vec<&'a [KoalaBear]>)
        requires
            forall|i: int|
                0 <= i < self.lookups_spec().len() ==> (#[trigger] self.lookups_spec()[i]).index
                    < trace.columns@.len(),
        ensures
            r@.len() == self.lookups_spec().len(),
            forall|i: int|
                0 <= i < r@.len() ==> (#[trigger] r@[i])@
                    == trace.columns@[self.lookups_spec()[i].index as int]@,
    {
        let lookups = self.lookups();
        let ghost views = lookup_views(lookups@);
        let mut out: Vec<&'a [KoalaBear]> = Vec::new();
        let mut i: usize = 0;
        while i < lookups.len()
            invariant
                i <= lookups@.len(),
                views == lookup_views(lookups@),
                views == self.lookups_spec(),
                forall|i: int|
                    0 <= i < self.lookups_spec().len() ==> (
                    #[trigger] self.lookups_spec()[i]).index < trace.columns@.len(),
                out@.len() == i,
                forall|j: int|
                    0 <= j < i ==> (#[trigger] out@[j])@ == trace.columns@[views[j].index as int]@,
            decreases lookups@.len() - i,
        {
            assert(views[i as int] == lookups@[i as int]@);
            out.push(trace.columns[lookups[i].index].as_slice());
            i += 1;
        }
        out
    }

    /// The columns with the values of the lookups.
    fn lookup_value_columns<'a>(&self, trace: &'a TableTrace) -> (r: Vec<Vec<&'a [KoalaBear]>>)
        requires
            forall|i: int|
                0 <= i < self.lookups_spec().len() ==> columns_exist(
                    (#[trigger] self.lookups_spec()[i]).values,
                    *trace,
                ),
        ensures
            r@.len() == self.lookups_spec().len(),
            forall|i: int|
                0 <= i < r@.len() ==> selected_columns(
                    (#[trigger] r@[i])@,
                    self.lookups_spec()[i].values,
                    *trace,
                ),
            forall|i: int|
                0 <= i < r@.len() ==> (#[trigger] r@[i])@.len()
                    == self.lookups_spec()[i].values.len(),
            forall|i: int, k: int|
                0 <= i < r@.len() && 0 <= k < r@[i]@.len() ==> (#[trigger] r@[i]@[k])@
                    == trace.columns@[self.lookups_spec()[i].values[k] as int]@,
    {
        let lookups = self.lookups();
        let ghost views = lookup_views(lookups@);
        let mut out: Vec<Vec<&'a [KoalaBear]>> = Vec::new();
        let mut i: usize = 0;
        while i < lookups.len()
            invariant
                i <= lookups@.len(),
                views == lookup_views(lookups@),
                views == self.lookups_spec(),
                forall|i: int|
                    0 <= i < self.lookups_spec().len() ==> columns_exist(
                        (#[trigger] self.lookups_spec()[i]).values,
                        *trace,
                    ),
                out@.len() == i,
                forall|j: int|
                    0 <= j < i ==> selected_columns((#[trigger] out@[j])@, views[j].values, *trace),
            decreases lookups@.len() - i,
        {
            assert(views[i as int] == lookups@[i as int]@);
            out.push(select_columns(trace, &lookups[i].values));
            i += 1;
        }
        out
    }

    fn lookup_address_offsets(&self) -> (r: Vec<usize>)
        ensures
            r@ == self.lookups_spec().map_values(|l: LookupView| l.address_offset),
    {
        let lookups = self.lookups();
        let ghost views = lookup_views(lookups@);
        let mut out: Vec<usize> = Vec::new();
        let mut i: usize = 0;
        while i < lookups.len()
            invariant
                i <= lookups@.len(),
                views == lookup_views(lookups@),
                out@.len() == i,
                forall|j: int| 0 <= j < i ==> #[trigger] out@[j] == views[j].address_offset,
            decreases lookups@.len() - i,
        {
            assert(views[i as int] == lookups@[i as int]@);
            out.push(lookups[i].address_offset);
            i += 1;
        }
        assert(out@ =~= views.map_values(|l: LookupView| l.address_offset));
        out
    }

    /// The columns that make the lookups inactive.
    fn lookup_conditional_inactive_columns<'a>(&self, trace: &'a TableTrace) -> (r: Vec<
        Vec<&'a [KoalaBear]>,
    >)
        requires
            forall|i: int|
                0 <= i < self.lookups_spec().len() ==> columns_exist(
                    (#[trigger] self.lookups_spec()[i]).conditional_inactive,
                    *trace,
                ),
        ensures
            r@.len() == self.lookups_spec().len(),
            forall|i: int|
                0 <= i < r@.len() ==> selected_columns(
                    (#[trigger] r@[i])@,
                    self.lookups_spec()[i].conditional_inactive,
                    *trace,
                ),
            forall|i: int|
                0 <= i < r@.len() ==> (#[trigger] r@[i])@.len()
                    == self.lookups_spec()[i].conditional_inactive.len(),
            forall|i: int, k: int|
                0 <= i < r@.len() && 0 <= k < r@[i]@.len() ==> (#[trigger] r@[i]@[k])@
                    == trace.columns@[self.lookups_spec()[i].conditional_inactive[k] as int]@,
    {
        let lookups = self.lookups();
        let ghost views = lookup_views(lookups@);
        let mut out: Vec<Vec<&'a [KoalaBear]>> = Vec::new();
        let mut i: usize = 0;
        while i < lookups.len()
            invariant
                i <= lookups@.len(),
                views == lookup_views(lookups@),
                views == self.lookups_spec(),
                forall|i: int|
                    0 <= i < self.lookups_spec().len() ==> columns_exist(
                        (#[trigger] self.lookups_spec()[i]).conditional_inactive,
                        *trace,
                    ),
                out@.len() == i,
                forall|j: int|
                    0 <= j < i ==> selected_columns(
                        (#[trigger] out@[j])@,
                        views[j].conditional_inactive,
                        *trace,
                    ),
            decreases lookups@.len() - i,
        {
            assert(views[i as int] == lookups@[i as int]@);
            out.push(select_columns(trace, &lookups[i].conditional_inactive));
            i += 1;
        }
        out
    }
}

/// The interactions of a table that has none but its bus and its lookups.
pub fn default_bus_interactions(bus: &Bus, lookups: &Vec<LookupIntoMemory>) -> (r: Vec<
    BusInteraction,
>)
    requires
        all_offsets_fit(lookup_views(lookups@)),
    ensures
        interactions(r@) == default_interactions(bus@, lookup_views(lookups@)),
{
    let n: usize = bus.data.len();
    let domainsep = if n == 0 {
        BusData::Constant(0)
    } else {
        bus.data[n - 1]
    };
    let mut data: Vec<BusData> = Vec::new();
    let mut i: usize = 0;
    while i + 1 < n
        invariant
            n == bus.data@.len(),
            n == bus.data.len(),
            i < n || i == 0,
            data@ == bus.data@.take(i as int),
        decreases n - i,
    {
        data.push(bus.data[i]);
        assert(bus.data@.take(i + 1) =~= bus.data@.take(i as int).push(bus.data@[i as int]));
        i += 1;
    }
    let mut out: Vec<BusInteraction> = Vec::new();
    proof {
        if n > 0 {
            assert(bus.data@.take(i as int) =~= bus.data@.drop_last());
        } else {
            assert(data@ =~= bus.data@);
        }
    }
    out.push(
        BusInteraction {
            direction: bus.direction,
            multiplicity: BusMultiplicity::Column(bus.selector),
            domainsep,
            data,
        },
    );
    let ghost views = lookup_views(lookups@);
    let mut k: usize = 0;
    proof {
        assert(interactions(out@) =~= seq![bus_interaction(bus@)]);
        assert(views.take(0) =~= Seq::empty());
        assert(interactions(out@) =~= seq![bus_interaction(bus@)] + lookups_interactions(
            views.take(0),
        ));
    }
    while k < lookups.len()
        invariant
            k <= lookups@.len(),
            views == lookup_views(lookups@),
            all_offsets_fit(views),
            interactions(out@) == seq![bus_interaction(bus@)] + lookups_interactions(
                views.take(k as int),
            ),
        decreases lookups@.len() - k,
    {
        assert(views[k as int] == lookups@[k as int]@);
        push_lookup(&mut out, &lookups[k]);
        proof {
            assert(views.take(k + 1).drop_last() =~= views.take(k as int));
            assert(interactions(out@) =~= seq![bus_interaction(bus@)] + lookups_interactions(
                views.take(k + 1),
            ));
        }
        k += 1;
    }
    assert(views.take(views.len() as int) =~= views);
    out
}

/// Every listed column is one of the trace.
pub open spec fn columns_exist(cols: Seq<ColIndex>, trace: TableTrace) -> bool {
    forall|i: int| 0 <= i < cols.len() ==> #[trigger] cols[i] < trace.columns@.len()
}

/// `out` are the listed columns of the trace.
pub open spec fn selected_columns(
    out: Seq<&[KoalaBear]>,
    cols: Seq<ColIndex>,
    trace: TableTrace,
) -> bool {
    &&& out.len() == cols.len()
    &&& forall|i: int|
        0 <= i < cols.len() ==> (#[trigger] out[i])@ == trace.columns@[cols[i] as int]@
}

fn select_columns<'a>(trace: &'a TableTrace, cols: &Vec<ColIndex>) -> (r: Vec<&'a [KoalaBear]>)
    requires
        columns_exist(cols@, *trace),
    ensures
        selected_columns(r@, cols@, *trace),
        r@.len() == cols@.len(),
        forall|i: int|
            0 <= i < cols@.len() ==> (#[trigger] r@[i])@ == trace.columns@[cols@[i] as int]@,
{
    let mut out: Vec<&'a [KoalaBear]> = Vec::new();
    let mut i: usize = 0;
    while i < cols.len()
        invariant
            i <= cols@.len(),
            columns_exist(cols@, *trace),
            out@.len() == i,
            forall|j: int|
                0 <= j < i ==> (#[trigger] out@[j])@ == trace.columns@[cols@[j] as int]@,
        decreases cols@.len() - i,
    {
        out.push(trace.columns[cols[i]].as_slice());
        i += 1;
    }
    out
}

} // verus!
