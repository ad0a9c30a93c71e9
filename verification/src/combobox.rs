//! The model behind a combo box: its items in the order they are shown, and
//! the key of the item that is selected, if any.

use vstd::prelude::*;

verus! {

/// One choice of a combo box, as a mathematical value.
pub struct ItemView {
    /// The key that the caller gave the item.
    pub key: u32,
    /// The text shown for the item.
    pub label: Seq<char>,
}

/// A combo box as a mathematical value.
pub struct ComboBoxView {
    /// The items, in the order in which they were added.
    pub items: Seq<ItemView>,
    /// The key of the selected item, if one is selected.
    pub selected_key: Option<u32>,
}

impl ComboBoxView {
    /// The combo box without items and without a selection.
    pub open spec fn empty() -> Self {
        ComboBoxView { items: Seq::empty(), selected_key: None }
    }

    /// Whether some item has the key `key`.
    pub open spec fn has_key(self, key: u32) -> bool {
        exists|i: int| 0 <= i < self.items.len() && (#[trigger] self.items[i]).key == key
    }

    /// Whether the item at `i` is the first one with the key `key`.
    pub open spec fn is_first_match(self, key: u32, i: int) -> bool {
        &&& 0 <= i < self.items.len()
        &&& self.items[i].key == key
        &&& forall|j: int| 0 <= j < i ==> (#[trigger] self.items[j]).key != key
    }

    /// Whether the selected key, if there is one, is the key of some item.
    pub open spec fn well_formed(self) -> bool {
        self.selected_key matches Some(key) ==> self.has_key(key)
    }

    /// The combo box with one more item at the end.
    pub open spec fn with_item(self, key: u32, label: Seq<char>) -> Self {
        ComboBoxView {
            items: self.items.push(ItemView { key, label }),
            selected_key: self.selected_key,
        }
    }

    /// The combo box with the items `more` at the end, in their order.
    pub open spec fn with_items(self, more: Seq<ItemView>) -> Self {
        ComboBoxView { items: self.items + more, selected_key: self.selected_key }
    }

    /// The combo box with the key `key` selected.
    pub open spec fn select(self, key: u32) -> Self {
        ComboBoxView { items: self.items, selected_key: Some(key) }
    }

    /// The label that belongs to the selection: that of the first item with
    /// the selected key.
    pub open spec fn is_selected_label(self, label: Seq<char>) -> bool {
        &&& self.selected_key is Some
        &&& exists|i: int| #[trigger]
                self.is_first_match(self.selected_key->Some_0, i) && self.items[i].label == label
    }
}

/// Adding a sequence of items at once is adding them one after the other:
/// no items change nothing, and one more item in the sequence is one more item
/// added after the others.
pub proof fn lemma_with_items_one_by_one(
    combo_box: ComboBoxView,
    more: Seq<ItemView>,
    last: ItemView,
)
    ensures
        combo_box.with_items(Seq::empty()) == combo_box,
        combo_box.with_items(more.push(last)) == combo_box.with_items(more).with_item(
            last.key,
            last.label,
        ),
{
    assert(combo_box.with_items(Seq::empty()).items =~= combo_box.items);
    assert(combo_box.with_items(more.push(last)).items =~= combo_box.with_items(more).with_item(
        last.key,
        last.label,
    ).items);
}

/// One choice of a combo box: a key that the caller assigns, and the text
/// shown for it.
pub struct ComboBoxItem {
    key: u32,
    label: String,
}

impl View for ComboBoxItem {
    type V = ItemView;

    closed spec fn view(&self) -> ItemView {
        ItemView { key: self.key, label: self.label@ }
    }
}

impl ComboBoxItem {
    /// An item with the given key and label.
    pub fn new(key: u32, label: String) -> (item: Self)
        ensures
            item@ == (ItemView { key, label: label@ }),
    {
        ComboBoxItem { key, label }
    }
}

/// The views of a sequence of items.
pub open spec fn item_views(items: Seq<ComboBoxItem>) -> Seq<ItemView> {
    items.map_values(|item: ComboBoxItem| item@)
}

/// Why a selection was refused.
#[derive(Debug, Clone, Copy, PartialEq, Eq, Structural)]
#[non_exhaustive]
pub enum ComboBoxError {
    /// No item has the key.
    KeyNotExist(u32),
}

/// The items of a combo box, in the order they are shown, and the key of the
/// selected one.
///
/// Keys are not checked for uniqueness: among items with one key, the first
/// is the one that a selection of that key refers to.
pub struct ComboBox {
    items: Vec<ComboBoxItem>,
    selected_key: Option<u32>,
}

impl View for ComboBox {
    type V = ComboBoxView;

    closed spec fn view(&self) -> ComboBoxView {
        ComboBoxView { items: item_views(self.items@), selected_key: self.selected_key }
    }
}

impl ComboBox {
    /// A selected key is always the key of an item.
    #[verifier::type_invariant]
    spec fn selection_is_listed(&self) -> bool {
        self@.well_formed()
    }

    /// A combo box without items and without a selection.
    pub fn new() -> (combo_box: Self)
        ensures
            combo_box@ == ComboBoxView::empty(),
            combo_box@.well_formed(),
    {
        let combo_box = ComboBox { items: Vec::new(), selected_key: None };
        assert(combo_box@.items =~= Seq::empty());
        combo_box
    }

    /// The key of the selected item, if one is selected.
    ///
    /// A selected key is one that `set_selected_index` accepted, so some item
    /// has it.
    pub fn get_selected_key(&self) -> (key: Option<u32>)
        ensures
            key == self@.selected_key,
            self@.well_formed(),
    {
        proof {
            use_type_invariant(self);
        }
        self.selected_key
    }

    /// The index of the first item with the key `key`, if there is one.
    fn first_index_of(&self, key: u32) -> (index: Option<usize>)
        ensures
            match index {
                Some(i) => self@.is_first_match(key, i as int),
                None => !self@.has_key(key),
            },
    {
        let mut i: usize = 0;
        while i < self.items.len()
            invariant
                i <= self.items.len(),
                forall|j: int| 0 <= j < i ==> (#[trigger] self@.items[j]).key != key,
            decreases self.items.len() - i,
        {
            if self.items[i].key == key {
                return Some(i);
            }
            i += 1;
        }
        None
    }

    /// The label of the selected item, if one is selected: the label of the
    /// first item that has the selected key.
    pub fn get_selected_label(&self) -> (label: Option<String>)
        ensures
            self@.selected_key is None ==> label is None,
            self@.selected_key is Some ==> label is Some && self@.is_selected_label(
                label->Some_0@,
            ),
    {
        match self.selected_key {
            None => None,
            Some(key) => {
                match self.first_index_of(key) {
                    Some(i) => {
                        let label = self.items[i].label.clone();
                        assert(self@.items[i as int].label == label@);
                        Some(label)
                    },
                    None => {
                        proof {
                            use_type_invariant(self);
                        }
                        None
                    },
                }
            },
        }
    }

    /// Selects the item with the key `key`.
    ///
    /// Where no item has that key, the selection stays as it was and the error
    /// names the key.
    pub fn set_selected_index(&mut self, key: u32) -> (result: Result<(), ComboBoxError>)
        ensures
            old(self)@.has_key(key) ==> result is Ok && final(self)@ == old(self)@.select(key),
            !old(self)@.has_key(key) ==> result == Err::<(), ComboBoxError>(
                ComboBoxError::KeyNotExist(key),
            ) && final(self)@ == old(self)@,
            final(self)@.well_formed(),
    {
        proof {
            use_type_invariant(&*self);
        }
        match self.first_index_of(key) {
            Some(i) => {
                proof {
                    let selected = self@.select(key);
                    assert(selected.items[i as int].key == key);
                    assert(selected.well_formed());
                }
                self.selected_key = Some(key);
                Ok(())
            },
            None => Err(ComboBoxError::KeyNotExist(key)),
        }
    }

    /// Adds an item at the end. The selection stays as it was.
    pub fn add_item(self, key: u32, label: String) -> (combo_box: Self)
        ensures
            combo_box@ == self@.with_item(key, label@),
            combo_box@.well_formed(),
    {
        proof {
            use_type_invariant(&self);
        }
        let mut items = self.items;
        items.push(ComboBoxItem { key, label });
        proof {
            let after = self@.with_item(key, label@);
            assert(item_views(items@) =~= after.items);
            assert(after.items.subrange(0, self@.items.len() as int) =~= self@.items);
            lemma_more_items_keep_keys(self@, after);
        }
        ComboBox { items, selected_key: self.selected_key }
    }

    /// Adds the items of `items` at the end, in their order. The selection
    /// stays as it was.
    pub fn add_items(self, items: Vec<ComboBoxItem>) -> (combo_box: Self)
        ensures
            combo_box@ == self@.with_items(item_views(items@)),
            combo_box@.well_formed(),
    {
        proof {
            use_type_invariant(&self);
        }
        let mut all = self.items;
        let mut more = items;
        all.append(&mut more);
        proof {
            let after = self@.with_items(item_views(items@));
            assert(item_views(all@) =~= after.items);
            assert(after.items.subrange(0, self@.items.len() as int) =~= self@.items);
            lemma_more_items_keep_keys(self@, after);
        }
        ComboBox { items: all, selected_key: self.selected_key }
    }
}

impl Default for ComboBox {
    /// A combo box without items and without a selection.
    fn default() -> (combo_box: Self)
        ensures
            combo_box@ == ComboBoxView::empty(),
            combo_box@.well_formed(),
    {
        ComboBox::new()
    }
}

/// A combo box that only gained items at the end still lists every key that
/// it listed before, and the first item with a key is still the first.
pub proof fn lemma_more_items_keep_keys(before: ComboBoxView, after: ComboBoxView)
    requires
        before.items.len() <= after.items.len(),
        after.items.subrange(0, before.items.len() as int) == before.items,
        after.selected_key == before.selected_key,
    ensures
        forall|key: u32| before.has_key(key) ==> after.has_key(key),
        forall|key: u32, i: int| #[trigger]
            before.is_first_match(key, i) ==> after.is_first_match(key, i),
        before.well_formed() ==> after.well_formed(),
{
    let kept = after.items.subrange(0, before.items.len() as int);
    assert forall|key: u32| before.has_key(key) implies after.has_key(key) by {
        let i = choose|i: int|
            0 <= i < before.items.len() && (#[trigger] before.items[i]).key == key;
        assert(kept[i] == after.items[i]);
        assert(after.items[i].key == key);
    }
    assert forall|key: u32, i: int| #[trigger]
        before.is_first_match(key, i) implies after.is_first_match(key, i) by {
        assert(kept[i] == after.items[i]);
        assert forall|j: int| 0 <= j < i implies (#[trigger] after.items[j]).key != key by {
            assert(kept[j] == after.items[j]);
        }
    }
}

/// At most one item is the first with a given key, so a selection has one
/// label.
pub proof fn lemma_first_match_is_unique(combo_box: ComboBoxView, key: u32, i: int, j: int)
    requires
        combo_box.is_first_match(key, i),
        combo_box.is_first_match(key, j),
    ensures
        i == j,
{
}

} // verus!
