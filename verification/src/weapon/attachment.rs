//! Attachment categories, attachment ids, the per-weapon attachment loadout
//! and the attachment catalogue.

use vstd::prelude::*;
use vstd::string::StringSliceAdditionalSpecFns;
use vstd::utf8::encode_utf8;
use crate::text::{
    ascii_eq_ignore_case, bytes_eq, bytes_lt, eq_ignore_ascii_case, is_blank, is_blank_str,
    is_snake_case, is_snake_case_id, law_snake_case_bytes, lemma_lex_lt_asymmetric,
    lemma_lex_lt_transitive, lex_lt,
};

verus! {

/// Number of attachment slots / categories.
pub const ATTACHMENT_CATEGORY_COUNT: usize = 6;

/// Every attachment category, in slot order.
pub const ALL_ATTACHMENT_CATEGORIES: [AttachmentCategory; ATTACHMENT_CATEGORY_COUNT] = [
    AttachmentCategory::Optic,
    AttachmentCategory::Barrel,
    AttachmentCategory::Grip,
    AttachmentCategory::Magazine,
    AttachmentCategory::Stock,
    AttachmentCategory::Underbarrel,
];

/// The slot an attachment goes into.
#[derive(Clone, Copy, Debug, PartialEq, Eq, Hash, Structural)]
pub enum AttachmentCategory {
    Optic,
    Barrel,
    Grip,
    Magazine,
    Stock,
    Underbarrel,
}

impl AttachmentCategory {
    /// Slot index of this category.
    pub open spec fn spec_index(self) -> nat {
        match self {
            AttachmentCategory::Optic => 0,
            AttachmentCategory::Barrel => 1,
            AttachmentCategory::Grip => 2,
            AttachmentCategory::Magazine => 3,
            AttachmentCategory::Stock => 4,
            AttachmentCategory::Underbarrel => 5,
        }
    }

    /// All six categories, in slot order.
    pub fn all() -> (r: &'static [AttachmentCategory; ATTACHMENT_CATEGORY_COUNT])
        ensures
            forall|i: int| 0 <= i < 6 ==> (#[trigger] r@[i]).spec_index() == i,
            r@.len() == 6,
    {
        &ALL_ATTACHMENT_CATEGORIES
    }

    /// Display label of the category.
    pub fn label(self) -> (r: &'static str)
        ensures
            r@ == (match self {
                AttachmentCategory::Optic => "Optic"@,
                AttachmentCategory::Barrel => "Barrel"@,
                AttachmentCategory::Grip => "Grip"@,
                AttachmentCategory::Magazine => "Magazine"@,
                AttachmentCategory::Stock => "Stock"@,
                AttachmentCategory::Underbarrel => "Underbarrel"@,
            }),
    {
        match self {
            AttachmentCategory::Optic => "Optic",
            AttachmentCategory::Barrel => "Barrel",
            AttachmentCategory::Grip => "Grip",
            AttachmentCategory::Magazine => "Magazine",
            AttachmentCategory::Stock => "Stock",
            AttachmentCategory::Underbarrel => "Underbarrel",
        }
    }

    /// Slot index of the category, in `[0, 5]`.
    pub fn index(self) -> (r: usize)
        ensures
            r == self.spec_index(),
    {
        match self {
            AttachmentCategory::Optic => 0,
            AttachmentCategory::Barrel => 1,
            AttachmentCategory::Grip => 2,
            AttachmentCategory::Magazine => 3,
            AttachmentCategory::Stock => 4,
            AttachmentCategory::Underbarrel => 5,
        }
    }
}

/// Identifies one attachment: its catalogue id and its category.
#[derive(Debug)]
pub struct AttachmentId {
    id: String,
    category: AttachmentCategory,
}

/// The mathematical content of an [`AttachmentId`].
pub struct AttachmentIdView {
    pub id: Seq<char>,
    pub category: AttachmentCategory,
}

impl View for AttachmentId {
    type V = AttachmentIdView;

    closed spec fn view(&self) -> AttachmentIdView {
        AttachmentIdView { id: self.id@, category: self.category }
    }
}

impl AttachmentId {
    pub fn new(id: &str, category: AttachmentCategory) -> (r: AttachmentId)
        ensures
            r@ == (AttachmentIdView { id: id@, category }),
    {
        AttachmentId { id: id.to_owned(), category }
    }

    pub fn id(&self) -> (r: &str)
        ensures
            r@ == self@.id,
    {
        self.id.as_str()
    }

    pub fn category(&self) -> (r: AttachmentCategory)
        ensures
            r == self@.category,
    {
        self.category
    }
}

impl PartialEq for AttachmentId {
    fn eq(&self, other: &AttachmentId) -> (r: bool) {
        self.id == other.id && self.category == other.category
    }
}

impl vstd::std_specs::cmp::PartialEqSpecImpl for AttachmentId {
    open spec fn obeys_eq_spec() -> bool {
        true
    }

    open spec fn eq_spec(&self, other: &AttachmentId) -> bool {
        self@.id == other@.id && self@.category == other@.category
    }
}

/// Why an attachment could not be equipped.
#[derive(Clone, Debug, PartialEq, Eq, Structural)]
pub enum AttachmentEquipError {
    /// The attachment's category is not the slot it was put in.
    CategoryMismatch { slot: AttachmentCategory, attachment: AttachmentCategory },
}

/// The view of an optional attachment.
pub open spec fn slot_view(o: Option<AttachmentId>) -> Option<AttachmentIdView> {
    match o {
        Some(a) => Some(a@),
        None => None,
    }
}

/// One optional attachment per category.
#[derive(Debug)]
pub struct AttachmentLoadout {
    slots: Vec<Option<AttachmentId>>,
}

impl View for AttachmentLoadout {
    type V = Seq<Option<AttachmentIdView>>;

    /// Slot `i` holds the attachment of the category whose index is `i`.
    closed spec fn view(&self) -> Seq<Option<AttachmentIdView>> {
        self.slots@.map_values(|o: Option<AttachmentId>| slot_view(o))
    }
}

impl AttachmentLoadout {
    /// There is one slot per category.
    pub open spec fn wf(&self) -> bool {
        self@.len() == ATTACHMENT_CATEGORY_COUNT
    }

    /// The loadout with every slot empty.
    pub fn new() -> (r: AttachmentLoadout)
        ensures
            r.wf(),
            r@ == Seq::new(6, |i: int| None::<AttachmentIdView>),
            r@.len() == 6,
    {
        let mut slots: Vec<Option<AttachmentId>> = Vec::new();
        let mut i: usize = 0;
        while i < ATTACHMENT_CATEGORY_COUNT
            invariant
                i <= 6,
                slots@.len() == i,
                forall|j: int| 0 <= j < i ==> slots@[j] is None,
            decreases 6 - i,
        {
            slots.push(None);
            i = i + 1;
        }
        let r = AttachmentLoadout { slots };
        assert(r@ =~= Seq::new(6, |i: int| None::<AttachmentIdView>));
        r
    }

    /// Whether the slot of `category` is empty.
    pub fn is_empty(&self, category: AttachmentCategory) -> (r: bool)
        requires
            self.wf(),
        ensures
            r == (self@[category.spec_index() as int] is None),
    {
        self.get(category).is_none()
    }

    /// The attachment in the slot of `category`, if any.
    pub fn get(&self, category: AttachmentCategory) -> (r: Option<&AttachmentId>)
        requires
            self.wf(),
        ensures
            match r {
                Some(a) => self@[category.spec_index() as int] == Some(a@),
                None => self@[category.spec_index() as int] is None,
            },
    {
        match &self.slots[category.index()] {
            Some(a) => Some(a),
            None => None,
        }
    }

    /// Empties the slot of `category` and returns what it held.
    pub fn unequip(&mut self, category: AttachmentCategory) -> (r: Option<AttachmentId>)
        requires
            old(self).wf(),
        ensures
            final(self).wf(),
            slot_view(r) == old(self)@[category.spec_index() as int],
            final(self)@ == old(self)@.update(category.spec_index() as int, None),
    {
        let idx = category.index();
        let taken = self.slots.remove(idx);
        self.slots.insert(idx, None);
        assert(self@ =~= old(self)@.update(idx as int, None));
        taken
    }

    /// Puts `attachment` in the slot of its own category and returns the
    /// attachment it replaces, if any.
    pub fn equip(&mut self, attachment: AttachmentId) -> (r: Option<AttachmentId>)
        requires
            old(self).wf(),
        ensures
            final(self).wf(),
            slot_view(r) == old(self)@[attachment@.category.spec_index() as int],
            final(self)@ == old(self)@.update(
                attachment@.category.spec_index() as int,
                Some(attachment@),
            ),
    {
        let slot = attachment.category();
        self.replace(slot, attachment)
    }

    /// Puts `attachment` in the slot `slot`, which must be its category.
    pub fn equip_in_slot(&mut self, slot: AttachmentCategory, attachment: AttachmentId) -> (r:
        Result<Option<AttachmentId>, AttachmentEquipError>)
        requires
            old(self).wf(),
        ensures
            final(self).wf(),
            slot != attachment@.category ==> r == Err::<Option<AttachmentId>, _>(
                AttachmentEquipError::CategoryMismatch { slot, attachment: attachment@.category },
            ) && final(self)@ == old(self)@,
            slot == attachment@.category ==> (r matches Ok(prev) && slot_view(prev) == old(
                self,
            )@[slot.spec_index() as int] && final(self)@ == old(self)@.update(
                slot.spec_index() as int,
                Some(attachment@),
            )),
    {
        if slot != attachment.category() {
            return Err(
                AttachmentEquipError::CategoryMismatch { slot, attachment: attachment.category() },
            );
        }
        Ok(self.replace(slot, attachment))
    }

    fn replace(&mut self, slot: AttachmentCategory, attachment: AttachmentId) -> (r: Option<
        AttachmentId,
    >)
        requires
            old(self).wf(),
        ensures
            final(self).wf(),
            slot_view(r) == old(self)@[slot.spec_index() as int],
            final(self)@ == old(self)@.update(slot.spec_index() as int, Some(attachment@)),
    {
        let idx = slot.index();
        let replaced = self.slots.remove(idx);
        self.slots.insert(idx, Some(attachment));
        assert(self@ =~= old(self)@.update(idx as int, Some(attachment@)));
        replaced
    }
}

impl Default for AttachmentLoadout {
    /// The loadout with every slot empty.
    fn default() -> (r: AttachmentLoadout)
        ensures
            r.wf(),
            r@ == Seq::new(6, |i: int| None::<AttachmentIdView>),
    {
        AttachmentLoadout::new()
    }
}

/// Law: after equipping an attachment, the slot of its category holds it
/// and every other slot is unchanged; equipping returns what the slot held.
pub proof fn law_equip_then_get(
    before: Seq<Option<AttachmentIdView>>,
    after: Seq<Option<AttachmentIdView>>,
    a: AttachmentIdView,
    c: AttachmentCategory,
)
    requires
        before.len() == 6,
        after == before.update(a.category.spec_index() as int, Some(a)),
    ensures
        after[a.category.spec_index() as int] == Some(a),
        c != a.category ==> after[c.spec_index() as int] == before[c.spec_index() as int],
{
}

/// Law: equipping an attachment in an empty slot and then emptying that
/// slot gives back the loadout as it was, and the emptying hands back the
/// attachment.
pub proof fn law_equip_then_unequip_restores(
    before: Seq<Option<AttachmentIdView>>,
    a: AttachmentIdView,
)
    requires
        before.len() == 6,
        before[a.category.spec_index() as int] is None,
    ensures
        ({
            let mid = before.update(a.category.spec_index() as int, Some(a));
            &&& mid[a.category.spec_index() as int] == Some(a)
            &&& mid.update(a.category.spec_index() as int, None) == before
        }),
{
    let i = a.category.spec_index() as int;
    assert(before.update(i, Some(a)).update(i, None) =~= before);
}

/// One entry of the attachment catalogue.
#[derive(Debug)]
pub struct AttachmentDef {
    /// snake_case identifier, unique in the catalogue regardless of ASCII case.
    pub id: String,
    /// Display name.
    pub name: String,
    pub category: AttachmentCategory,
}

/// UTF-8 bytes of the id of an entry.
pub open spec fn def_id_bytes(d: AttachmentDef) -> Seq<u8> {
    encode_utf8(d.id@)
}

/// UTF-8 bytes of the name of an entry.
pub open spec fn def_name_bytes(d: AttachmentDef) -> Seq<u8> {
    encode_utf8(d.name@)
}

/// Catalogue order: by category slot, then by name bytes.
pub open spec fn def_lt(a: AttachmentDef, b: AttachmentDef) -> bool {
    ||| a.category.spec_index() < b.category.spec_index()
    ||| (a.category == b.category && lex_lt(def_name_bytes(a), def_name_bytes(b)))
}

/// `defs` is in catalogue order (equal keys may stand in any order).
pub open spec fn sorted_defs(defs: Seq<AttachmentDef>) -> bool {
    forall|i: int, j: int| 0 <= i < j < defs.len() ==> !def_lt(#[trigger] defs[j], #[trigger] defs[i])
}

/// No two entries have ids that are equal regardless of ASCII case.
pub open spec fn distinct_ids(defs: Seq<AttachmentDef>) -> bool {
    forall|i: int, j: int|
        0 <= i < j < defs.len() ==> !ascii_eq_ignore_case(
            def_id_bytes(#[trigger] defs[i]),
            def_id_bytes(#[trigger] defs[j]),
        )
}

/// An entry that may stand in the catalogue: its name is not blank and its
/// id is snake_case.
pub open spec fn valid_def(d: AttachmentDef) -> bool {
    !is_blank(d.name@) && is_snake_case(def_id_bytes(d))
}

/// Why a set of entries cannot form a catalogue.
#[derive(Debug, Clone, Copy, PartialEq, Eq, Structural)]
pub enum CatalogError {
    /// The entry at this position (in the order given) has a blank name.
    BlankName(usize),
    /// The entry at this position (in the order given) has an id that is not snake_case.
    NonSnakeCaseId(usize),
    /// No entries were given.
    NoEntries,
    /// Two entries share an id regardless of ASCII case; the position of
    /// the later one in catalogue order.
    DuplicateId(usize),
}

/// The attachment catalogue: valid entries with distinct ids, in catalogue
/// order.
#[derive(Debug)]
pub struct AttachmentCatalog {
    defs: Vec<AttachmentDef>,
}

impl View for AttachmentCatalog {
    type V = Seq<AttachmentDef>;

    closed spec fn view(&self) -> Seq<AttachmentDef> {
        self.defs@
    }
}

impl AttachmentCatalog {
    /// Every entry is valid, ids are distinct and entries are in catalogue order.
    pub open spec fn wf(&self) -> bool {
        &&& self@.len() > 0
        &&& forall|i: int| 0 <= i < self@.len() ==> valid_def(#[trigger] self@[i])
        &&& distinct_ids(self@)
        &&& sorted_defs(self@)
    }

    /// Every catalogue is well formed: `from_defs` is the only way to make one.
    #[verifier::type_invariant]
    spec fn catalog_inv(self) -> bool {
        self.wf()
    }
}

/// The id of an entry as an attachment id.
pub open spec fn id_of(d: AttachmentDef) -> AttachmentIdView {
    AttachmentIdView { id: d.id@, category: d.category }
}

/// `i` is the first position of `defs` whose entry is not valid.
pub open spec fn first_invalid(defs: Seq<AttachmentDef>, i: int) -> bool {
    &&& 0 <= i < defs.len()
    &&& !valid_def(defs[i])
    &&& forall|k: int| 0 <= k < i ==> valid_def(#[trigger] defs[k])
}

/// Every entry of `defs` is valid.
pub open spec fn all_valid(defs: Seq<AttachmentDef>) -> bool {
    forall|k: int| 0 <= k < defs.len() ==> valid_def(#[trigger] defs[k])
}

/// The entry at `j` has an id equal, regardless of ASCII case, to that of an
/// earlier entry.
pub open spec fn repeats_earlier_id(defs: Seq<AttachmentDef>, j: int) -> bool {
    exists|i: int|
        0 <= i < j && ascii_eq_ignore_case(def_id_bytes(#[trigger] defs[i]), def_id_bytes(defs[j]))
}

/// Whether `d` answers to `name`: its display name is exactly `name`, or its
/// id equals `name` regardless of ASCII case.
pub open spec fn answers_to_name(d: AttachmentDef, name: Seq<u8>) -> bool {
    def_name_bytes(d) == name || ascii_eq_ignore_case(def_id_bytes(d), name)
}

/// The ids of the entries of `defs` in `category`, in catalogue order.
pub open spec fn ids_in_category(defs: Seq<AttachmentDef>, category: AttachmentCategory) -> Seq<
    AttachmentIdView,
>
    decreases defs.len(),
{
    if defs.len() == 0 {
        Seq::empty()
    } else if defs.last().category == category {
        ids_in_category(defs.drop_last(), category).push(id_of(defs.last()))
    } else {
        ids_in_category(defs.drop_last(), category)
    }
}

fn def_before(a: &AttachmentDef, b: &AttachmentDef) -> (r: bool)
    ensures
        r == def_lt(*a, *b),
{
    let ca = a.category.index();
    let cb = b.category.index();
    if ca != cb {
        return ca < cb;
    }
    bytes_lt(a.name.as_str().as_bytes(), b.name.as_str().as_bytes())
}

proof fn lemma_def_lt_order(a: AttachmentDef, b: AttachmentDef, c: AttachmentDef)
    ensures
        !(def_lt(a, b) && def_lt(b, a)),
        def_lt(a, b) && def_lt(b, c) ==> def_lt(a, c),
{
    lemma_lex_lt_asymmetric(def_name_bytes(a), def_name_bytes(b));
    if def_lt(a, b) && def_lt(b, c) && a.category == b.category && b.category == c.category {
        lemma_lex_lt_transitive(def_name_bytes(a), def_name_bytes(b), def_name_bytes(c));
    }
}

/// The ids of valid entries hold only lowercase ASCII letters, digits and
/// underscores.
proof fn lemma_valid_ids_are_snake_case(defs: Seq<AttachmentDef>)
    requires
        forall|m: int| 0 <= m < defs.len() ==> valid_def(#[trigger] defs[m]),
    ensures
        forall|i: int, k: int|
            0 <= i < defs.len() && 0 <= k < def_id_bytes(defs[i]).len() ==> (97
                <= #[trigger] def_id_bytes(#[trigger] defs[i])[k] <= 122 || 48 <= def_id_bytes(
                defs[i],
            )[k] <= 57 || def_id_bytes(defs[i])[k] == 95),
{
    assert forall|i: int, k: int|
        0 <= i < defs.len() && 0 <= k < def_id_bytes(defs[i]).len() implies (97
            <= #[trigger] def_id_bytes(#[trigger] defs[i])[k] <= 122 || 48 <= def_id_bytes(
            defs[i],
        )[k] <= 57 || def_id_bytes(defs[i])[k] == 95) by {
        assert(valid_def(defs[i]));
        law_snake_case_bytes(def_id_bytes(defs[i]));
    }
}

impl AttachmentCatalog {
    /// Builds the catalogue from its entries: each must be valid, there must
    /// be at least one, and ids must be distinct regardless of ASCII case.
    /// The entries are put in catalogue order.
    pub fn from_defs(defs: Vec<AttachmentDef>) -> (r: Result<AttachmentCatalog, CatalogError>)
        ensures
            match r {
                Ok(c) => c.wf() && c@.to_multiset() == defs@.to_multiset(),
                Err(CatalogError::BlankName(i)) => first_invalid(defs@, i as int) && is_blank(
                    defs@[i as int].name@,
                ),
                Err(CatalogError::NonSnakeCaseId(i)) => first_invalid(defs@, i as int) && !is_blank(
                    defs@[i as int].name@,
                ),
                Err(CatalogError::NoEntries) => all_valid(defs@) && defs@.len() == 0,
                Err(CatalogError::DuplicateId(j)) => {
                    &&& all_valid(defs@)
                    &&& 0 <= j < defs@.len()
                    &&& repeats_earlier_id(defs@, j as int)
                    &&& forall|k: int| 0 <= k < j ==> !repeats_earlier_id(defs@, k)
                },
            },
            all_valid(defs@) && defs@.len() > 0 && distinct_ids(defs@) ==> r is Ok,
            r matches Ok(c) ==> forall|i: int, k: int|
                0 <= i < c@.len() && 0 <= k < def_id_bytes(c@[i]).len() ==> (97
                    <= #[trigger] def_id_bytes(#[trigger] c@[i])[k] <= 122 || 48 <= def_id_bytes(
                    c@[i],
                )[k] <= 57 || def_id_bytes(c@[i])[k] == 95),
    {
        let n = defs.len();
        let mut i: usize = 0;
        while i < n
            invariant
                n == defs@.len(),
                i <= n,
                forall|k: int| 0 <= k < i ==> valid_def(#[trigger] defs@[k]),
            decreases n - i,
        {
            let d = &defs[i];
            if is_blank_str(d.name.as_str()) {
                return Err(CatalogError::BlankName(i));
            }
            if !is_snake_case_id(d.id.as_str()) {
                return Err(CatalogError::NonSnakeCaseId(i));
            }
            i = i + 1;
        }
        if n == 0 {
            return Err(CatalogError::NoEntries);
        }
        let mut j: usize = 0;
        while j < n
            invariant
                n == defs@.len(),
                all_valid(defs@),
                j <= n,
                forall|k: int| 0 <= k < j ==> !repeats_earlier_id(defs@, k),
            decreases n - j,
        {
            let mut i: usize = 0;
            while i < j
                invariant
                    n == defs@.len(),
                    all_valid(defs@),
                    forall|k: int| 0 <= k < j ==> !repeats_earlier_id(defs@, k),
                    j < n,
                    i <= j,
                    forall|k: int|
                        0 <= k < i ==> !ascii_eq_ignore_case(
                            def_id_bytes(#[trigger] defs@[k]),
                            def_id_bytes(defs@[j as int]),
                        ),
                decreases j - i,
            {
                if eq_ignore_ascii_case(defs[i].id.as_str(), defs[j].id.as_str()) {
                    assert(ascii_eq_ignore_case(
                        def_id_bytes(defs@[i as int]),
                        def_id_bytes(defs@[j as int]),
                    ));
                    return Err(CatalogError::DuplicateId(j));
                }
                i = i + 1;
            }
            j = j + 1;
        }
        proof {
            assert forall|k: int| 0 <= k < n implies !repeats_earlier_id(defs@, k) by {}
            assert forall|a: int, b: int| 0 <= a < b < defs@.len() implies !ascii_eq_ignore_case(
                def_id_bytes(#[trigger] defs@[a]),
                def_id_bytes(#[trigger] defs@[b]),
            ) by {
                assert(!repeats_earlier_id(defs@, b));
            }
        }
        let ghost input = defs@;
        let sorted = sort_defs(defs);
        proof {
            assert forall|m: int| 0 <= m < sorted@.len() implies valid_def(#[trigger] sorted@[m]) by {
                assert(input.contains(sorted@[m]));
                let k = choose|k: int| 0 <= k < input.len() && input[k] == sorted@[m];
                assert(valid_def(input[k]));
            }
            lemma_valid_ids_are_snake_case(sorted@);
        }
        Ok(AttachmentCatalog { defs: sorted })
    }
}

/// The entries of `defs` in catalogue order; equal keys keep their order.
fn sort_defs(defs: Vec<AttachmentDef>) -> (r: Vec<AttachmentDef>)
    requires
        distinct_ids(defs@),
    ensures
        r@.to_multiset() == defs@.to_multiset(),
        sorted_defs(r@),
        distinct_ids(r@),
        r@.len() == defs@.len(),
        forall|m: int| 0 <= m < r@.len() ==> defs@.contains(#[trigger] r@[m]),
{
    broadcast use vstd::seq_lib::group_to_multiset_ensures;

    let ghost all = defs@;
    let mut rest = defs;
    let mut out: Vec<AttachmentDef> = Vec::new();
    let ghost mut taken: int = 0;
    assert(all.take(0) =~= out@);
    assert(all.skip(0) =~= all);
    while rest.len() > 0
        invariant
            0 <= taken <= all.len(),
            rest@ == all.skip(taken),
            out@.to_multiset() == all.take(taken).to_multiset(),
            sorted_defs(out@),
            distinct_ids(all),
            forall|m: int| 0 <= m < out@.len() ==> all.take(taken).contains(#[trigger] out@[m]),
            distinct_ids(out@),
        decreases rest@.len(),
    {
        let x = rest.remove(0);
        let mut p: usize = 0;
        while p < out.len() && !def_before(&x, &out[p])
            invariant
                p <= out@.len(),
                forall|k: int| 0 <= k < p ==> !def_lt(x, #[trigger] out@[k]),
            decreases out@.len() - p,
        {
            p = p + 1;
        }
        let ghost old_out = out@;
        proof {
            assert(x == all[taken]);
            assert(all.take(taken + 1) =~= all.take(taken).push(x));
            assert forall|a: int, b: int| 0 <= a < b < old_out.insert(p as int, x).len() implies !def_lt(
                #[trigger] old_out.insert(p as int, x)[b],
                #[trigger] old_out.insert(p as int, x)[a],
            ) by {
                let s = old_out.insert(p as int, x);
                if a < p && b == p {
                } else if a == p && b > p {
                    lemma_def_lt_order(old_out[b - 1], x, old_out[p as int]);
                    lemma_def_lt_order(old_out[p as int], old_out[b - 1], x);
                    if b - 1 > p {
                        assert(!def_lt(old_out[b - 1], old_out[p as int]));
                    }
                    lemma_def_lt_order(old_out[b - 1], x, x);
                    if def_lt(old_out[b - 1], x) {
                        lemma_def_lt_order(old_out[b - 1], x, old_out[p as int]);
                    }
                } else if a < p && b > p {
                    assert(!def_lt(old_out[b - 1], old_out[a]));
                } else if b < p {
                } else {
                    assert(!def_lt(old_out[b - 1], old_out[a - 1]));
                }
            }
            assert forall|m: int| 0 <= m < old_out.len() implies !ascii_eq_ignore_case(
                def_id_bytes(#[trigger] old_out[m]),
                def_id_bytes(x),
            ) by {
                assert(all.take(taken).contains(old_out[m]));
                let k = choose|k: int| 0 <= k < taken && all.take(taken)[k] == old_out[m];
                assert(all[k] == old_out[m]);
            }
        }
        out.insert(p, x);
        proof {
            let t = all.take(taken + 1);
            assert forall|m: int| 0 <= m < out@.len() implies t.contains(#[trigger] out@[m]) by {
                if m < p {
                    assert(all.take(taken).contains(old_out[m]));
                    let k = choose|k: int| 0 <= k < taken && all.take(taken)[k] == old_out[m];
                    assert(t[k] == old_out[m]);
                } else if m == p {
                    assert(t[taken] == x);
                } else {
                    assert(all.take(taken).contains(old_out[m - 1]));
                    let k = choose|k: int| 0 <= k < taken && all.take(taken)[k] == old_out[m - 1];
                    assert(t[k] == old_out[m - 1]);
                }
            }
            assert forall|a: int, b: int| 0 <= a < b < out@.len() implies !ascii_eq_ignore_case(
                def_id_bytes(#[trigger] out@[a]),
                def_id_bytes(#[trigger] out@[b]),
            ) by {
                if a < p && b == p {
                } else if a == p {
                    assert(out@[b] == old_out[b - 1]);
                    assert(!ascii_eq_ignore_case(def_id_bytes(old_out[b - 1]), def_id_bytes(x)));
                } else if a < p && b > p {
                    assert(out@[b] == old_out[b - 1]);
                } else if b < p {
                } else {
                    assert(out@[b] == old_out[b - 1]);
                    assert(out@[a] == old_out[a - 1]);
                }
            }
            assert(out@ == old_out.insert(p as int, x));
            vstd::seq_lib::to_multiset_insert(old_out, p as int, x);
            vstd::seq_lib::to_multiset_build(all.take(taken), x);
            taken = taken + 1;
            assert(rest@ =~= all.skip(taken));
        }
    }
    proof {
        assert(all.take(taken) =~= all);
        vstd::seq_lib::to_multiset_len(out@);
        vstd::seq_lib::to_multiset_len(all);
    }
    out
}

impl AttachmentCatalog {
    /// Every entry, in catalogue order.
    pub fn defs(&self) -> (r: &[AttachmentDef])
        ensures
            r@ == self@,
            self.wf(),
    {
        proof {
            use_type_invariant(self);
        }
        self.defs.as_slice()
    }

    /// The ids of all entries, in catalogue order.
    pub fn all_attachment_ids(&self) -> (r: Vec<AttachmentId>)
        ensures
            r@.len() == self@.len(),
            forall|i: int| 0 <= i < r@.len() ==> (#[trigger] r@[i])@ == id_of(self@[i]),
            r@.len() > 0,
            forall|i: int, j: int|
                0 <= i < j < r@.len() ==> (#[trigger] r@[i])@.category.spec_index() <= (
                #[trigger] r@[j])@.category.spec_index() && !ascii_eq_ignore_case(
                    encode_utf8(r@[i]@.id),
                    encode_utf8(r@[j]@.id),
                ),
    {
        proof {
            use_type_invariant(self);
        }
        let mut out: Vec<AttachmentId> = Vec::new();
        let mut i: usize = 0;
        while i < self.defs.len()
            invariant
                i <= self@.len(),
                out@.len() == i,
                forall|k: int| 0 <= k < i ==> (#[trigger] out@[k])@ == id_of(self@[k]),
            decreases self@.len() - i,
        {
            let d = &self.defs[i];
            out.push(AttachmentId::new(d.id.as_str(), d.category));
            i = i + 1;
        }
        out
    }

    /// The ids of the entries in `category`, in catalogue order.
    pub fn attachment_ids_for_category(&self, category: AttachmentCategory) -> (r: Vec<
        AttachmentId,
    >)
        ensures
            r@.map_values(|a: AttachmentId| a@) == ids_in_category(self@, category),
    {
        let mut out: Vec<AttachmentId> = Vec::new();
        let mut i: usize = 0;
        while i < self.defs.len()
            invariant
                i <= self@.len(),
                out@.map_values(|a: AttachmentId| a@) == ids_in_category(
                    self@.take(i as int),
                    category,
                ),
            decreases self@.len() - i,
        {
            let d = &self.defs[i];
            proof {
                assert(self@.take(i + 1).drop_last() =~= self@.take(i as int));
            }
            if d.category == category {
                let ghost before = out@;
                out.push(AttachmentId::new(d.id.as_str(), d.category));
                assert(out@.map_values(|a: AttachmentId| a@) =~= before.map_values(
                    |a: AttachmentId| a@,
                ).push(id_of(self@[i as int])));
            }
            i = i + 1;
        }
        assert(self@.take(self@.len() as int) =~= self@);
        out
    }

    /// The first entry that answers to `name` (exact display name, or id
    /// regardless of ASCII case), as an attachment id.
    pub fn attachment_id_by_name(&self, name: &str) -> (r: Option<AttachmentId>)
        ensures
            match r {
                Some(a) => exists|i: int|
                    0 <= i < self@.len() && answers_to_name(#[trigger] self@[i], name.spec_bytes())
                        && (forall|k: int|
                        0 <= k < i ==> !answers_to_name(#[trigger] self@[k], name.spec_bytes()))
                        && a@ == id_of(self@[i]),
                None => forall|i: int|
                    0 <= i < self@.len() ==> !answers_to_name(#[trigger] self@[i], name.spec_bytes()),
            },
    {
        let key = name.as_bytes();
        let mut i: usize = 0;
        while i < self.defs.len()
            invariant
                i <= self@.len(),
                key@ == name.spec_bytes(),
                forall|k: int| 0 <= k < i ==> !answers_to_name(#[trigger] self@[k], name.spec_bytes()),
            decreases self@.len() - i,
        {
            let d = &self.defs[i];
            if bytes_eq(d.name.as_str().as_bytes(), key) || eq_ignore_ascii_case(d.id.as_str(), name) {
                assert(answers_to_name(self@[i as int], name.spec_bytes()));
                return Some(AttachmentId::new(d.id.as_str(), d.category));
            }
            i = i + 1;
        }
        None
    }

    /// The first entry whose id equals `id` regardless of ASCII case.
    pub fn attachment_id_by_id(&self, id: &str) -> (r: Option<AttachmentId>)
        ensures
            match r {
                Some(a) => exists|i: int|
                    0 <= i < self@.len() && ascii_eq_ignore_case(
                        def_id_bytes(#[trigger] self@[i]),
                        id.spec_bytes(),
                    ) && (forall|k: int|
                        0 <= k < i ==> !ascii_eq_ignore_case(
                            def_id_bytes(#[trigger] self@[k]),
                            id.spec_bytes(),
                        )) && a@ == id_of(self@[i]),
                None => forall|i: int|
                    0 <= i < self@.len() ==> !ascii_eq_ignore_case(
                        def_id_bytes(#[trigger] self@[i]),
                        id.spec_bytes(),
                    ),
            },
    {
        let mut i: usize = 0;
        while i < self.defs.len()
            invariant
                i <= self@.len(),
                forall|k: int|
                    0 <= k < i ==> !ascii_eq_ignore_case(
                        def_id_bytes(#[trigger] self@[k]),
                        id.spec_bytes(),
                    ),
            decreases self@.len() - i,
        {
            let d = &self.defs[i];
            if eq_ignore_ascii_case(d.id.as_str(), id) {
                return Some(AttachmentId::new(d.id.as_str(), d.category));
            }
            i = i + 1;
        }
        None
    }

    /// The display name of the entry with exactly this id and category.
    pub fn attachment_name(&self, id: &AttachmentId) -> (r: Option<&str>)
        ensures
            match r {
                Some(n) => exists|i: int|
                    0 <= i < self@.len() && id_of(#[trigger] self@[i]) == id@ && (forall|k: int|
                        0 <= k < i ==> id_of(#[trigger] self@[k]) != id@) && n@ == self@[i].name@,
                None => forall|i: int| 0 <= i < self@.len() ==> id_of(#[trigger] self@[i]) != id@,
            },
    {
        let mut i: usize = 0;
        while i < self.defs.len()
            invariant
                i <= self@.len(),
                forall|k: int| 0 <= k < i ==> id_of(#[trigger] self@[k]) != id@,
            decreases self@.len() - i,
        {
            let d = &self.defs[i];
            if d.id == id.id && d.category == id.category {
                assert(id_of(self@[i as int]) == id@);
                return Some(d.name.as_str());
            }
            i = i + 1;
        }
        None
    }
}

} // verus!
