//! A small list with one value per radio.

use vstd::prelude::*;

verus! {

/// A value of one radio.
#[derive(Debug, Clone, Copy)]
pub struct Entry<V> {
    /// The radio.
    pub radio: u16,
    /// Its value.
    pub value: V,
}

/// One value per radio, in the order in which the radios first came.
pub struct PerRadio<V> {
    /// The entries.
    pub items: Vec<Entry<V>>,
}

/// No radio stands twice.
pub open spec fn one_each<V>(items: Seq<Entry<V>>) -> bool {
    forall|i: int, j: int|
        0 <= i < j < items.len() ==> (#[trigger] items[i]).radio != (#[trigger] items[j]).radio
}

/// Where a radio stands, counted from `from`; the length where it does not.
pub open spec fn place<V>(items: Seq<Entry<V>>, radio: u16, from: int) -> int
    decreases items.len() - from,
{
    if from < 0 || from >= items.len() {
        items.len() as int
    } else if items[from].radio == radio {
        from
    } else {
        place(items, radio, from + 1)
    }
}

/// The value of a radio, where it has one.
pub open spec fn value_of<V>(items: Seq<Entry<V>>, radio: u16) -> Option<V> {
    let at = place(items, radio, 0);
    if at < items.len() {
        Some(items[at].value)
    } else {
        None
    }
}

/// The entries with a radio's value set.
pub open spec fn with_value<V>(items: Seq<Entry<V>>, radio: u16, value: V) -> Seq<Entry<V>> {
    let at = place(items, radio, 0);
    if at < items.len() {
        items.update(at, Entry { radio, value })
    } else {
        items.push(Entry { radio, value })
    }
}

proof fn lemma_place<V>(items: Seq<Entry<V>>, radio: u16, from: int)
    requires
        0 <= from <= items.len(),
    ensures
        from <= place(items, radio, from) <= items.len(),
        place(items, radio, from) < items.len() ==> items[place(items, radio, from)].radio
            == radio,
        forall|i: int|
            from <= i < place(items, radio, from) ==> (#[trigger] items[i]).radio != radio,
    decreases items.len() - from,
{
    if from < items.len() && items[from].radio != radio {
        lemma_place(items, radio, from + 1);
    }
}

proof fn lemma_place_is_unique<V>(items: Seq<Entry<V>>, radio: u16, i: int)
    requires
        one_each(items),
        0 <= i < items.len(),
        items[i].radio == radio,
    ensures
        place(items, radio, 0) == i,
{
    lemma_place(items, radio, 0);
    let at = place(items, radio, 0);
    if at < i {
        assert(items[at].radio != items[i].radio);
    }
}

/// Setting a value keeps one entry per radio.
pub proof fn lemma_with_value_keeps_one_each<V>(items: Seq<Entry<V>>, radio: u16, value: V)
    requires
        one_each(items),
    ensures
        one_each(with_value(items, radio, value)),
{
    lemma_place(items, radio, 0);
    let after = with_value(items, radio, value);
    assert forall|i: int, j: int| 0 <= i < j < after.len() implies (#[trigger] after[i]).radio != (
    #[trigger] after[j]).radio by {
        if j < items.len() {
            assert(items[i].radio != items[j].radio);
        }
    }
}

/// A radio's value is the one last set, and setting it leaves the others alone.
pub proof fn law_values_are_kept_per_radio<V>(
    items: Seq<Entry<V>>,
    radio: u16,
    value: V,
    other: u16,
)
    requires
        one_each(items),
    ensures
        value_of(with_value(items, radio, value), radio) == Some(value),
        other != radio ==> value_of(with_value(items, radio, value), other) == value_of(
            items,
            other,
        ),
{
    let after = with_value(items, radio, value);
    lemma_with_value_keeps_one_each(items, radio, value);
    lemma_place(items, radio, 0);
    lemma_place(items, other, 0);
    lemma_place(after, other, 0);
    let at = place(items, radio, 0);
    lemma_place_is_unique(after, radio, at);
    let o = place(items, other, 0);
    if other == radio {
    } else if o < items.len() {
        assert(after[o] == items[o]);
        lemma_place_is_unique(after, other, o);
    } else {
        let p = place(after, other, 0);
        if p < items.len() && p != at {
            assert(after[p] == items[p]);
            assert(items[p].radio != other);
        }
    }
}

impl<V: Copy> PerRadio<V> {
    /// No radio stands twice.
    pub open spec fn wf(&self) -> bool {
        one_each(self.items@)
    }

    /// A list without radios.
    pub fn new() -> (p: Self)
        ensures
            p.wf(),
            p.items@.len() == 0,
    {
        PerRadio { items: Vec::new() }
    }

    /// Where does a radio stand?
    fn find(&self, radio: u16) -> (i: usize)
        ensures
            i == place(self.items@, radio, 0),
            i <= self.items.len(),
    {
        let mut i: usize = 0;
        while i < self.items.len()
            invariant
                i <= self.items.len(),
                place(self.items@, radio, 0) == place(self.items@, radio, i as int),
            decreases self.items.len() - i,
        {
            if self.items[i].radio == radio {
                return i;
            }
            i = i + 1;
        }
        i
    }

    /// The value of a radio.
    pub fn get(&self, radio: u16) -> (v: Option<V>)
        ensures
            v == value_of(self.items@, radio),
    {
        let i: usize = self.find(radio);
        if i < self.items.len() {
            Some(self.items[i].value)
        } else {
            None
        }
    }

    /// Sets the value of a radio.
    pub fn put(&mut self, radio: u16, value: V)
        requires
            old(self).wf(),
        ensures
            final(self).wf(),
            final(self).items@ == with_value(old(self).items@, radio, value),
    {
        let i: usize = self.find(radio);
        proof {
            lemma_with_value_keeps_one_each(self.items@, radio, value);
        }
        if i < self.items.len() {
            self.items.set(i, Entry { radio, value });
        } else {
            self.items.push(Entry { radio, value });
        }
    }

    /// Forgets every radio.
    pub fn clear(&mut self)
        ensures
            final(self).wf(),
            final(self).items@.len() == 0,
    {
        self.items.clear();
    }
}

/// A radio's value is the one that stands beside it; a radio that does not stand in the
/// list has none.
pub proof fn law_a_value_stands_beside_its_radio<V>(items: Seq<Entry<V>>, radio: u16, i: int)
    requires
        one_each(items),
    ensures
        0 <= i < items.len() && items[i].radio == radio ==> value_of(items, radio) == Some(
            items[i].value,
        ),
        (forall|j: int| 0 <= j < items.len() ==> (#[trigger] items[j]).radio != radio) ==> value_of(
            items,
            radio,
        ) is None,
{
    lemma_place(items, radio, 0);
    if 0 <= i < items.len() && items[i].radio == radio {
        lemma_place_is_unique(items, radio, i);
    }
}

/// Setting a value keeps the order of the radios; a new radio comes last.
pub proof fn law_radios_keep_their_order<V>(items: Seq<Entry<V>>, radio: u16, value: V, j: int)
    requires
        one_each(items),
        0 <= j < items.len(),
    ensures
        ({
            let after = with_value(items, radio, value);
            &&& after[j].radio == items[j].radio
            &&& items[j].radio != radio ==> after[j] == items[j]
            &&& value_of(items, radio) is Some ==> after.len() == items.len()
            &&& value_of(items, radio) is None ==> after.len() == items.len() + 1 && after.last()
                == (Entry { radio, value })
        }),
{
    lemma_place(items, radio, 0);
}

/// No radio stands twice in a list that is well formed.
pub proof fn law_one_entry_per_radio<V: Copy>(p: PerRadio<V>, i: int, j: int)
    requires
        p.wf(),
        0 <= i < p.items@.len(),
        0 <= j < p.items@.len(),
        p.items@[i].radio == p.items@[j].radio,
    ensures
        i == j,
{
    if i < j {
        assert(p.items@[i].radio != p.items@[j].radio);
    } else if j < i {
        assert(p.items@[j].radio != p.items@[i].radio);
    }
}

} // verus!
