//! A slot-based inventory: stacks of items bounded by each item's stack
//! size, a bounded number of slots, and exact accounting of what adding or
//! removing a quantity does to every slot.

use vstd::prelude::*;

use crate::registries::{clone_id, clone_ids, id_view, ids_view, Item};
use crate::text::{
    chars_of, dec_nat, pad_left_spec, pad_right_spec, push_chars, push_dec_u32, push_dec_u64,
    push_pad_left, push_pad_right, push_repeat, push_str_chars, repeat_char, string_from_chars,
};

verus! {

/// One stack: an item and how many of it.
#[derive(Clone)]
pub struct Slot {
    pub item: Item,
    pub count: u32,
}

/// An inventory: optional money, stacks, and a slot limit.
pub struct Inventory {
    pub owner_money: Option<u32>,
    pub slots: Vec<Slot>,
    pub max_slots: usize,
}

/// Mathematical model of an item.
#[verifier::ext_equal]
pub ghost struct ItemModel {
    pub id: (Seq<char>, Seq<char>),
    pub tags: Seq<(Seq<char>, Seq<char>)>,
    pub stack_size: u32,
}

/// Mathematical model of a slot.
#[verifier::ext_equal]
pub ghost struct SlotModel {
    pub item: ItemModel,
    pub count: u32,
}

/// The model of an item.
pub open spec fn item_view(a: Item) -> ItemModel {
    ItemModel { id: id_view(a.id), tags: ids_view(a.tags@), stack_size: a.stack_size }
}

/// The model of a slot.
pub open spec fn slot_view(s: Slot) -> SlotModel {
    SlotModel { item: item_view(s.item), count: s.count }
}

/// The models of a slot list.
pub open spec fn slots_view(s: Seq<Slot>) -> Seq<SlotModel> {
    Seq::new(s.len(), |i: int| slot_view(s[i]))
}

/// A copy of an item.
pub fn clone_item(a: &Item) -> (r: Item)
    ensures
        item_view(r) == item_view(*a),
{
    let r = Item { id: clone_id(&a.id), tags: clone_ids(&a.tags), stack_size: a.stack_size };
    proof {
        assert(item_view(r) =~~= item_view(*a));
    }
    r
}

/// Whether two items are the same in every field.
pub fn item_eq(a: &Item, b: &Item) -> (r: bool)
    ensures
        r == (item_view(*a) == item_view(*b)),
{
    if a.stack_size != b.stack_size {
        return false;
    }
    if !crate::registries::id_eq(&a.id, &b.id) {
        return false;
    }
    if a.tags.len() != b.tags.len() {
        proof {
            assert(ids_view(a.tags@).len() != ids_view(b.tags@).len());
        }
        return false;
    }
    let n = a.tags.len();
    let mut i: usize = 0;
    while i < n
        invariant
            n == a.tags@.len(),
            b.tags@.len() == n,
            i <= n,
            forall|j: int| 0 <= j < i ==> id_view(a.tags@[j]) == id_view(b.tags@[j]),
        decreases n - i,
    {
        if !crate::registries::id_eq(&a.tags[i], &b.tags[i]) {
            proof {
                assert(ids_view(a.tags@)[i as int] != ids_view(b.tags@)[i as int]);
            }
            return false;
        }
        i = i + 1;
    }
    proof {
        assert(ids_view(a.tags@) =~= ids_view(b.tags@));
        assert(item_view(*a) =~~= item_view(*b));
    }
    true
}

/// Pours a quantity into the existing stacks of the same item, front to
/// back, each stack up to the item's stack size; yields the new stacks and
/// what could not be poured.
pub open spec fn fill_existing(slots: Seq<SlotModel>, item: ItemModel, q: u32) -> (
    Seq<SlotModel>,
    u32,
)
    decreases slots.len(),
{
    if slots.len() == 0 {
        (slots, q)
    } else {
        let s0 = slots[0];
        if s0.item == item && s0.count < item.stack_size && q > 0 {
            let space = (item.stack_size - s0.count) as u32;
            let add = if q < space {
                q
            } else {
                space
            };
            let rec = fill_existing(slots.drop_first(), item, (q - add) as u32);
            (seq![SlotModel { item: s0.item, count: (s0.count + add) as u32 }] + rec.0, rec.1)
        } else {
            let rec = fill_existing(slots.drop_first(), item, q);
            (seq![s0] + rec.0, rec.1)
        }
    }
}

/// Opens new stacks for what is left, at most `room` of them, each holding
/// at most the stack size; yields the new stacks and what found no room.
pub open spec fn new_stacks(item: ItemModel, q: u32, room: int) -> (Seq<SlotModel>, u32)
    decreases room,
{
    if q == 0 || room <= 0 {
        (Seq::<SlotModel>::empty(), q)
    } else {
        let add = if q < item.stack_size {
            q
        } else {
            item.stack_size
        };
        let rec = new_stacks(item, (q - add) as u32, room - 1);
        (seq![SlotModel { item, count: add }] + rec.0, rec.1)
    }
}

/// Takes a quantity out of the stacks of the same item, front to back;
/// yields the new stacks and what could not be taken.
pub open spec fn drain_slots(slots: Seq<SlotModel>, item: ItemModel, q: u32) -> (
    Seq<SlotModel>,
    u32,
)
    decreases slots.len(),
{
    if slots.len() == 0 {
        (slots, q)
    } else {
        let s0 = slots[0];
        if s0.item == item {
            let take_away = if q < s0.count {
                q
            } else {
                s0.count
            };
            let rec = drain_slots(slots.drop_first(), item, (q - take_away) as u32);
            (seq![SlotModel { item: s0.item, count: (s0.count - take_away) as u32 }] + rec.0,
            rec.1)
        } else {
            let rec = drain_slots(slots.drop_first(), item, q);
            (seq![s0] + rec.0, rec.1)
        }
    }
}

/// The stacks that still hold something.
pub open spec fn retain_positive(slots: Seq<SlotModel>) -> Seq<SlotModel>
    decreases slots.len(),
{
    if slots.len() == 0 {
        slots
    } else if slots[0].count > 0 {
        seq![slots[0]] + retain_positive(slots.drop_first())
    } else {
        retain_positive(slots.drop_first())
    }
}

/// The total count held of one item.
pub open spec fn count_of(slots: Seq<SlotModel>, item: ItemModel) -> int
    decreases slots.len(),
{
    if slots.len() == 0 {
        0
    } else {
        (if slots[0].item == item {
            slots[0].count as int
        } else {
            0
        }) + count_of(slots.drop_first(), item)
    }
}

/// The total count held of everything.
pub open spec fn count_all(slots: Seq<SlotModel>) -> int
    decreases slots.len(),
{
    if slots.len() == 0 {
        0
    } else {
        slots[0].count + count_all(slots.drop_first())
    }
}

impl Inventory {
    /// An empty inventory of thirty-two slots.
    pub fn new(owner_money: Option<u32>) -> (r: Self)
        ensures
            r.owner_money == owner_money,
            r.slots@ == Seq::<Slot>::empty(),
            r.max_slots == 32,
    {
        Inventory { owner_money, slots: Vec::new(), max_slots: 32 }
    }

    /// Adds a quantity of an item: first tops up existing stacks of that
    /// item, then opens new stacks while slots remain.  Returns whether
    /// everything found a place; what found a place stays either way.
    pub fn add_item(&mut self, item: Item, quantity: u32) -> (r: bool)
        ensures
            ({
                let iv = item_view(item);
                let filled = fill_existing(slots_view(old(self).slots@), iv, quantity);
                let room = old(self).max_slots - old(self).slots@.len();
                let extra = new_stacks(iv, filled.1, room);
                &&& slots_view(final(self).slots@) == filled.0 + extra.0
                &&& r == (extra.1 == 0)
                &&& final(self).owner_money == old(self).owner_money
                &&& final(self).max_slots == old(self).max_slots
            }),
    {
        let ghost sv0 = slots_view(self.slots@);
        let ghost iv = item_view(item);
        let ghost q0 = quantity;
        let n = self.slots.len();
        let mut new_slots: Vec<Slot> = Vec::new();
        let mut rem: u32 = quantity;
        let mut i: usize = 0;
        proof {
            assert(sv0.skip(0) =~= sv0);
            assert(slots_view(new_slots@) + fill_existing(sv0, iv, q0).0 =~= fill_existing(
                sv0,
                iv,
                q0,
            ).0);
        }
        while i < n
            invariant
                n == self.slots@.len(),
                i <= n,
                sv0 == slots_view(self.slots@),
                iv == item_view(item),
                new_slots@.len() == i,
                fill_existing(sv0, iv, q0).0 == slots_view(new_slots@) + fill_existing(
                    sv0.skip(i as int),
                    iv,
                    rem,
                ).0,
                fill_existing(sv0, iv, q0).1 == fill_existing(sv0.skip(i as int), iv, rem).1,
            decreases n - i,
        {
            let ghost restv = sv0.skip(i as int);
            let ghost ns0 = slots_view(new_slots@);
            proof {
                assert(restv[0] == sv0[i as int]);
                assert(sv0[i as int] == slot_view(self.slots@[i as int]));
                assert(restv.drop_first() =~= sv0.skip(i + 1 as int));
            }
            let cur_count = self.slots[i].count;
            let same = item_eq(&self.slots[i].item, &item);
            if same && cur_count < item.stack_size && rem > 0 {
                let space = item.stack_size - cur_count;
                let add = if rem < space {
                    rem
                } else {
                    space
                };
                let ni = clone_item(&self.slots[i].item);
                new_slots.push(Slot { item: ni, count: cur_count + add });
                rem = rem - add;
                proof {
                    assert(slots_view(new_slots@) =~= ns0.push(
                        SlotModel { item: restv[0].item, count: (restv[0].count + add) as u32 },
                    ));
                    assert(slots_view(new_slots@) + fill_existing(
                        sv0.skip(i + 1 as int),
                        iv,
                        rem,
                    ).0 =~= ns0 + (seq![
                        SlotModel { item: restv[0].item, count: (restv[0].count + add) as u32 },
                    ] + fill_existing(sv0.skip(i + 1 as int), iv, rem).0));
                }
            } else {
                let ni = clone_item(&self.slots[i].item);
                new_slots.push(Slot { item: ni, count: cur_count });
                proof {
                    assert(slots_view(new_slots@) =~= ns0.push(restv[0]));
                    assert(slots_view(new_slots@) + fill_existing(
                        sv0.skip(i + 1 as int),
                        iv,
                        rem,
                    ).0 =~= ns0 + (seq![restv[0]] + fill_existing(
                        sv0.skip(i + 1 as int),
                        iv,
                        rem,
                    ).0));
                }
            }
            i = i + 1;
        }
        proof {
            assert(sv0.skip(n as int) =~= Seq::<SlotModel>::empty());
            assert(slots_view(new_slots@) + fill_existing(
                sv0.skip(n as int),
                iv,
                rem,
            ).0 =~= slots_view(new_slots@));
        }
        let ghost filled_v = slots_view(new_slots@);
        let ghost rem1 = rem;
        let ghost room0 = self.max_slots - self.slots@.len();

        let mut full = false;
        proof {
            assert(new_stacks(iv, rem1, room0).0 =~= filled_v.skip(filled_v.len() as int)
                + new_stacks(iv, rem1, room0).0);
        }
        while rem > 0 && !full
            invariant_except_break
                iv == item_view(item),
                new_slots@.len() >= filled_v.len(),
                filled_v == slots_view(new_slots@).take(filled_v.len() as int),
                n == filled_v.len(),
                self.max_slots == old(self).max_slots,
                n <= new_slots@.len(),
                !full,
                new_stacks(iv, rem1, room0).0 == slots_view(new_slots@).skip(n as int)
                    + new_stacks(iv, rem, room0 - (new_slots@.len() - n)).0,
                new_stacks(iv, rem1, room0).1 == new_stacks(
                    iv,
                    rem,
                    room0 - (new_slots@.len() - n),
                ).1,
                room0 == self.max_slots - self.slots@.len(),
                sv0 == slots_view(self.slots@),
            ensures
                iv == item_view(item),
                self.max_slots == old(self).max_slots,
                room0 == self.max_slots - self.slots@.len(),
                sv0 == slots_view(self.slots@),
                new_stacks(iv, rem1, room0).0 == slots_view(new_slots@).skip(n as int),
                new_stacks(iv, rem1, room0).1 == rem,
                n <= new_slots@.len(),
                filled_v == slots_view(new_slots@).take(n as int),
            decreases rem, room0 - (new_slots@.len() - n),
        {
            let ghost used = new_slots@.len() - n;
            if self.max_slots > self.slots.len() && new_slots.len() - n < self.max_slots
                - self.slots.len() {
                proof {
                    assert(room0 - used > 0);
                }
                let add = if rem < item.stack_size {
                    rem
                } else {
                    item.stack_size
                };
                let ghost ns0 = slots_view(new_slots@);
                let ni = clone_item(&item);
                new_slots.push(Slot { item: ni, count: add });
                let old_rem = rem;
                rem = rem - add;
                proof {
                    assert(slots_view(new_slots@) =~= ns0.push(SlotModel { item: iv, count: add }));
                    assert(slots_view(new_slots@).skip(n as int) =~= ns0.skip(n as int).push(
                        SlotModel { item: iv, count: add },
                    ));
                    assert(new_stacks(iv, old_rem, room0 - used) == (seq![
                        SlotModel { item: iv, count: add },
                    ] + new_stacks(iv, rem, room0 - used - 1).0, new_stacks(
                        iv,
                        rem,
                        room0 - used - 1,
                    ).1));
                    assert(ns0.skip(n as int).push(SlotModel { item: iv, count: add })
                        + new_stacks(iv, rem, room0 - (used + 1)).0 =~= ns0.skip(n as int) + (seq![
                        SlotModel { item: iv, count: add },
                    ] + new_stacks(iv, rem, room0 - (used + 1)).0));
                    assert(slots_view(new_slots@).take(n as int) =~= ns0.take(n as int));
                    if add == 0 {
                        assert(item.stack_size == 0);
                        assert(rem == old_rem);
                    }
                }
            } else {
                proof {
                    assert(room0 - used <= 0);
                    assert(new_stacks(iv, rem, room0 - used).0 =~= Seq::<SlotModel>::empty());
                    assert(slots_view(new_slots@).skip(n as int) + Seq::<SlotModel>::empty()
                        =~= slots_view(new_slots@).skip(n as int));
                }
                full = true;
                break ;
            }
        }
        proof {
            if !(rem > 0) {
                assert(new_stacks(iv, rem, room0 - (new_slots@.len() - n)).0 =~= Seq::<
                    SlotModel,
                >::empty());
                assert(slots_view(new_slots@).skip(n as int) + Seq::<SlotModel>::empty()
                    =~= slots_view(new_slots@).skip(n as int));
            }
        }
        self.slots = new_slots;
        proof {
            assert(slots_view(self.slots@) =~= filled_v + slots_view(self.slots@).skip(n as int));
            assert(fill_existing(sv0, iv, q0).0 =~= filled_v);
        }
        rem == 0
    }

    /// Removes a quantity of an item from its stacks, front to back, and
    /// drops emptied stacks.  Returns whether the full quantity was there;
    /// what was there goes away either way.
    pub fn remove_item(&mut self, item: &Item, quantity: u32) -> (r: bool)
        ensures
            ({
                let iv = item_view(*item);
                let drained = drain_slots(slots_view(old(self).slots@), iv, quantity);
                &&& slots_view(final(self).slots@) == retain_positive(drained.0)
                &&& r == (drained.1 == 0)
                &&& final(self).owner_money == old(self).owner_money
                &&& final(self).max_slots == old(self).max_slots
            }),
    {
        let ghost sv0 = slots_view(self.slots@);
        let ghost iv = item_view(*item);
        let ghost q0 = quantity;
        let n = self.slots.len();
        let mut new_slots: Vec<Slot> = Vec::new();
        let mut rem: u32 = quantity;
        let mut i: usize = 0;
        proof {
            assert(sv0.skip(0) =~= sv0);
            let d = drain_slots(sv0, iv, q0);
            assert(retain_positive(Seq::<SlotModel>::empty()) == Seq::<SlotModel>::empty());
            assert(slots_view(new_slots@) + retain_positive(d.0) =~= retain_positive(d.0));
        }
        while i < n
            invariant
                n == self.slots@.len(),
                i <= n,
                sv0 == slots_view(self.slots@),
                iv == item_view(*item),
                retain_positive(drain_slots(sv0, iv, q0).0) == slots_view(new_slots@)
                    + retain_positive(drain_slots(sv0.skip(i as int), iv, rem).0),
                drain_slots(sv0, iv, q0).1 == drain_slots(sv0.skip(i as int), iv, rem).1,
            decreases n - i,
        {
            let ghost restv = sv0.skip(i as int);
            let ghost ns0 = slots_view(new_slots@);
            let ghost rem_before = rem;
            proof {
                assert(restv[0] == sv0[i as int]);
                assert(sv0[i as int] == slot_view(self.slots@[i as int]));
                assert(restv.drop_first() =~= sv0.skip(i + 1 as int));
            }
            let cur_count = self.slots[i].count;
            let same = item_eq(&self.slots[i].item, item);
            let mut new_count = cur_count;
            if same {
                let take_away = if rem < cur_count {
                    rem
                } else {
                    cur_count
                };
                new_count = cur_count - take_away;
                rem = rem - take_away;
            }
            proof {
                let upd = SlotModel { item: restv[0].item, count: new_count };
                assert(drain_slots(restv, iv, rem_before).0 == seq![upd] + drain_slots(
                    sv0.skip(i + 1 as int),
                    iv,
                    rem,
                ).0);
                assert(drain_slots(restv, iv, rem_before).1 == drain_slots(
                    sv0.skip(i + 1 as int),
                    iv,
                    rem,
                ).1);
                lemma_retain_cons(upd, drain_slots(sv0.skip(i + 1 as int), iv, rem).0);
            }
            if new_count > 0 {
                let ni = clone_item(&self.slots[i].item);
                new_slots.push(Slot { item: ni, count: new_count });
                proof {
                    assert(slots_view(new_slots@) =~= ns0.push(
                        SlotModel { item: restv[0].item, count: new_count },
                    ));
                    let tail = retain_positive(drain_slots(sv0.skip(i + 1 as int), iv, rem).0);
                    assert(ns0.push(SlotModel { item: restv[0].item, count: new_count }) + tail
                        =~= ns0 + (seq![SlotModel { item: restv[0].item, count: new_count }]
                        + tail));
                }
            }
            i = i + 1;
        }
        proof {
            assert(sv0.skip(n as int) =~= Seq::<SlotModel>::empty());
            assert(slots_view(new_slots@) + retain_positive(Seq::<SlotModel>::empty())
                =~= slots_view(new_slots@));
        }
        self.slots = new_slots;
        rem == 0
    }

    /// The total count held of one item.
    pub fn total_items_of(&self, item: &Item) -> (r: u32)
        requires
            count_of(slots_view(self.slots@), item_view(*item)) <= u32::MAX,
        ensures
            r == count_of(slots_view(self.slots@), item_view(*item)),
    {
        let ghost sv = slots_view(self.slots@);
        let ghost iv = item_view(*item);
        let n = self.slots.len();
        let mut total: u32 = 0;
        let mut i: usize = 0;
        proof {
            assert(sv.skip(0) =~= sv);
            lemma_count_of_bounds(sv, iv);
        }
        while i < n
            invariant
                n == self.slots@.len(),
                i <= n,
                sv == slots_view(self.slots@),
                iv == item_view(*item),
                count_of(sv, iv) <= u32::MAX,
                count_of(sv, iv) == total + count_of(sv.skip(i as int), iv),
                total <= count_of(sv, iv),
            decreases n - i,
        {
            let ghost restv = sv.skip(i as int);
            proof {
                assert(restv[0] == sv[i as int]);
                assert(sv[i as int] == slot_view(self.slots@[i as int]));
                assert(restv.drop_first() =~= sv.skip(i + 1 as int));
                lemma_count_of_bounds(sv.skip(i + 1 as int), iv);
            }
            if item_eq(&self.slots[i].item, item) {
                total = total + self.slots[i].count;
            }
            i = i + 1;
        }
        proof {
            assert(sv.skip(n as int) =~= Seq::<SlotModel>::empty());
        }
        total
    }

    /// The total count held of everything.
    pub fn total_items(&self) -> (r: u32)
        requires
            count_all(slots_view(self.slots@)) <= u32::MAX,
        ensures
            r == count_all(slots_view(self.slots@)),
    {
        let ghost sv = slots_view(self.slots@);
        let n = self.slots.len();
        let mut total: u32 = 0;
        let mut i: usize = 0;
        proof {
            assert(sv.skip(0) =~= sv);
            lemma_count_all_bounds(sv);
        }
        while i < n
            invariant
                n == self.slots@.len(),
                i <= n,
                sv == slots_view(self.slots@),
                count_all(sv) <= u32::MAX,
                count_all(sv) == total + count_all(sv.skip(i as int)),
                total <= count_all(sv),
            decreases n - i,
        {
            let ghost restv = sv.skip(i as int);
            proof {
                assert(restv[0] == sv[i as int]);
                assert(sv[i as int] == slot_view(self.slots@[i as int]));
                assert(restv.drop_first() =~= sv.skip(i + 1 as int));
                lemma_count_all_bounds(sv.skip(i + 1 as int));
            }
            total = total + self.slots[i].count;
            i = i + 1;
        }
        proof {
            assert(sv.skip(n as int) =~= Seq::<SlotModel>::empty());
        }
        total
    }

    /// Whether at least the given quantity of the item is held.
    pub fn has_item(&self, item: &Item, quantity: u32) -> (r: bool)
        requires
            count_of(slots_view(self.slots@), item_view(*item)) <= u32::MAX,
        ensures
            r == (count_of(slots_view(self.slots@), item_view(*item)) >= quantity),
    {
        let total = self.total_items_of(item);
        total >= quantity
    }
}

proof fn lemma_retain_cons(x: SlotModel, s: Seq<SlotModel>)
    ensures
        retain_positive(seq![x] + s) == (if x.count > 0 {
            seq![x] + retain_positive(s)
        } else {
            retain_positive(s)
        }),
{
    assert((seq![x] + s)[0] == x);
    assert((seq![x] + s).drop_first() =~= s);
}

proof fn lemma_count_of_bounds(slots: Seq<SlotModel>, item: ItemModel)
    ensures
        count_of(slots, item) >= 0,
    decreases slots.len(),
{
    if slots.len() > 0 {
        lemma_count_of_bounds(slots.drop_first(), item);
    }
}

proof fn lemma_count_all_bounds(slots: Seq<SlotModel>)
    ensures
        count_all(slots) >= 0,
    decreases slots.len(),
{
    if slots.len() > 0 {
        lemma_count_all_bounds(slots.drop_first());
    }
}


// ---------------------------------------------------------------------------
// Rendering the inventory as a table
// ---------------------------------------------------------------------------

/// The lowercased form of a string.  A function of the characters alone.
pub uninterp spec fn lower_of(s: Seq<char>) -> Seq<char>;

/// Relies on str::to_lowercase: the result depends on the characters
/// alone.
#[verifier::external_body]
fn lowercase(s: &str) -> (r: String)
    ensures
        r@ == lower_of(s@),
{
    s.to_lowercase()
}

/// Strict lexicographic order on character sequences, by code point.
pub open spec fn lex_lt(a: Seq<char>, b: Seq<char>) -> bool
    decreases a.len(),
{
    if b.len() == 0 {
        false
    } else if a.len() == 0 {
        true
    } else if a[0] != b[0] {
        (a[0] as int) < (b[0] as int)
    } else {
        lex_lt(a.drop_first(), b.drop_first())
    }
}

fn lex_lt_exec(a: &Vec<char>, b: &Vec<char>) -> (r: bool)
    ensures
        r == lex_lt(a@, b@),
{
    let mut i: usize = 0;
    proof {
        assert(a@.skip(0) =~= a@);
        assert(b@.skip(0) =~= b@);
    }
    while i < a.len() && i < b.len()
        invariant
            i <= a@.len(),
            i <= b@.len(),
            lex_lt(a@, b@) == lex_lt(a@.skip(i as int), b@.skip(i as int)),
        decreases a@.len() - i,
    {
        let ghost ra = a@.skip(i as int);
        let ghost rb = b@.skip(i as int);
        proof {
            assert(ra[0] == a@[i as int]);
            assert(rb[0] == b@[i as int]);
            assert(ra.drop_first() =~= a@.skip(i + 1 as int));
            assert(rb.drop_first() =~= b@.skip(i + 1 as int));
        }
        if a[i] != b[i] {
            return a[i] < b[i];
        }
        i = i + 1;
    }
    proof {
        if i == a@.len() {
            assert(a@.skip(i as int) =~= Seq::<char>::empty());
        } else {
            assert(b@.skip(i as int) =~= Seq::<char>::empty());
        }
    }
    a.len() < b.len()
}

/// The sort key of a stack: its item name, lowercased.
pub open spec fn sort_key(s: SlotModel) -> Seq<char> {
    lower_of(s.item.id.1)
}

/// A stack inserted into an already sorted list: it goes before the first
/// stack with a strictly greater key, so after every equal one.
pub open spec fn sorted_insert(x: SlotModel, s: Seq<SlotModel>) -> Seq<SlotModel>
    decreases s.len(),
{
    if s.len() == 0 {
        seq![x]
    } else if lex_lt(sort_key(x), sort_key(s[0])) {
        seq![x] + s
    } else {
        seq![s[0]] + sorted_insert(x, s.drop_first())
    }
}

pub open spec fn sort_slots_from(acc: Seq<SlotModel>, rest: Seq<SlotModel>) -> Seq<SlotModel>
    decreases rest.len(),
{
    if rest.len() == 0 {
        acc
    } else {
        sort_slots_from(sorted_insert(rest[0], acc), rest.drop_first())
    }
}

/// The stacks sorted stably by lowercased item name.
pub open spec fn sort_slots(s: Seq<SlotModel>) -> Seq<SlotModel> {
    sort_slots_from(Seq::empty(), s)
}

proof fn lemma_insert_at(x: SlotModel, s: Seq<SlotModel>, j: int)
    requires
        0 <= j <= s.len(),
        forall|t: int| 0 <= t < j ==> !lex_lt(sort_key(x), sort_key(#[trigger] s[t])),
        j < s.len() ==> lex_lt(sort_key(x), sort_key(s[j])),
    ensures
        sorted_insert(x, s) == s.take(j) + seq![x] + s.skip(j),
    decreases j,
{
    if j == 0 {
        if s.len() == 0 {
            assert(sorted_insert(x, s) =~= s.take(0) + seq![x] + s.skip(0));
        } else {
            assert(sorted_insert(x, s) =~= s.take(0) + seq![x] + s.skip(0));
        }
    } else {
        let d = s.drop_first();
        assert forall|t: int| 0 <= t < j - 1 implies !lex_lt(sort_key(x), sort_key(
            #[trigger] d[t],
        )) by {
            assert(d[t] == s[t + 1]);
        }
        if j - 1 < d.len() {
            assert(d[j - 1] == s[j]);
        }
        lemma_insert_at(x, d, j - 1);
        assert(sorted_insert(x, s) =~= s.take(j) + seq![x] + s.skip(j)) by {
            assert(d.take(j - 1) =~= s.subrange(1, j));
            assert(d.skip(j - 1) =~= s.skip(j));
        }
    }
}

proof fn lemma_insert_measures(x: SlotModel, s: Seq<SlotModel>)
    ensures
        sorted_insert(x, s).len() == s.len() + 1,
        count_all(sorted_insert(x, s)) == x.count + count_all(s),
    decreases s.len(),
{
    if s.len() > 0 && !lex_lt(sort_key(x), sort_key(s[0])) {
        lemma_insert_measures(x, s.drop_first());
        let r = seq![s[0]] + sorted_insert(x, s.drop_first());
        assert(r[0] == s[0]);
        assert(r.drop_first() =~= sorted_insert(x, s.drop_first()));
        assert(count_all(r) == s[0].count + count_all(sorted_insert(x, s.drop_first())));
    } else if s.len() > 0 {
        let r = seq![x] + s;
        assert(r[0] == x);
        assert(r.drop_first() =~= s);
        assert(count_all(r) == x.count + count_all(s));
    } else {
        let r = seq![x];
        assert(r[0] == x);
        assert(r.drop_first() =~= Seq::<SlotModel>::empty());
        assert(count_all(r) == x.count + count_all(Seq::<SlotModel>::empty()));
    }
}

proof fn lemma_sort_measures_from(acc: Seq<SlotModel>, rest: Seq<SlotModel>)
    ensures
        sort_slots_from(acc, rest).len() == acc.len() + rest.len(),
        count_all(sort_slots_from(acc, rest)) == count_all(acc) + count_all(rest),
    decreases rest.len(),
{
    if rest.len() > 0 {
        lemma_insert_measures(rest[0], acc);
        lemma_sort_measures_from(sorted_insert(rest[0], acc), rest.drop_first());
    }
}

/// Sorting keeps the number of stacks and the total count.
pub proof fn lemma_sort_measures(s: Seq<SlotModel>)
    ensures
        sort_slots(s).len() == s.len(),
        count_all(sort_slots(s)) == count_all(s),
{
    lemma_sort_measures_from(Seq::empty(), s);
}

/// A copy of the stacks, sorted stably by lowercased item name.
fn sort_by_name(slots: &Vec<Slot>) -> (r: Vec<Slot>)
    ensures
        slots_view(r@) == sort_slots(slots_view(slots@)),
{
    let ghost sv = slots_view(slots@);
    let mut out: Vec<Slot> = Vec::new();
    let mut keys: Vec<Vec<char>> = Vec::new();
    let mut i: usize = 0;
    proof {
        assert(sv.skip(0) =~= sv);
        assert(slots_view(out@) =~= Seq::<SlotModel>::empty());
    }
    while i < slots.len()
        invariant
            i <= slots@.len(),
            sv == slots_view(slots@),
            out@.len() == keys@.len(),
            forall|t: int|
                0 <= t < out@.len() ==> (#[trigger] keys@[t])@ == sort_key(slots_view(out@)[t]),
            sort_slots(sv) == sort_slots_from(slots_view(out@), sv.skip(i as int)),
        decreases slots@.len() - i,
    {
        let ghost rest = sv.skip(i as int);
        let ghost acc0 = slots_view(out@);
        proof {
            assert(rest[0] == sv[i as int]);
            assert(sv[i as int] == slot_view(slots@[i as int]));
            assert(rest.drop_first() =~= sv.skip(i + 1 as int));
        }
        let lowered = lowercase(slots[i].item.id.name.as_str());
        let kx = chars_of(lowered.as_str());
        let x = Slot { item: clone_item(&slots[i].item), count: slots[i].count };
        proof {
            assert(slot_view(x) == rest[0]);
            assert(kx@ == sort_key(rest[0]));
        }
        let n = out.len();
        let mut j: usize = 0;
        while j < n && !lex_lt_exec(&kx, &keys[j])
            invariant
                n == out@.len(),
                keys@.len() == n,
                j <= n,
                kx@ == sort_key(slot_view(x)),
                forall|t: int|
                    0 <= t < out@.len() ==> (#[trigger] keys@[t])@ == sort_key(
                        slots_view(out@)[t],
                    ),
                forall|t: int|
                    0 <= t < j ==> !lex_lt(kx@, sort_key(#[trigger] slots_view(out@)[t])),
            decreases n - j,
        {
            j = j + 1;
        }
        proof {
            if j < n {
                assert(lex_lt(kx@, keys@[j as int]@));
                assert(keys@[j as int]@ == sort_key(slots_view(out@)[j as int]));
            }
            lemma_insert_at(slot_view(x), acc0, j as int);
        }
        let ghost outs0 = out@;
        let ghost keys0 = keys@;
        out.insert(j, x);
        keys.insert(j, kx);
        proof {
            assert(out@ =~= outs0.take(j as int) + seq![x] + outs0.skip(j as int));
            assert(keys@ =~= keys0.take(j as int) + seq![kx] + keys0.skip(j as int));
            assert(slots_view(out@) =~~= acc0.take(j as int) + seq![slot_view(x)] + acc0.skip(
                j as int,
            ));
            assert(slots_view(out@) == sorted_insert(slot_view(x), acc0));
            assert forall|t: int|
                0 <= t < out@.len() implies (#[trigger] keys@[t])@ == sort_key(
                slots_view(out@)[t],
            ) by {
                if t < j {
                    assert(keys@[t] == keys0[t]);
                    assert(slots_view(out@)[t] == acc0[t]);
                } else if t == j {
                } else {
                    assert(keys@[t] == keys0[t - 1]);
                    assert(slots_view(out@)[t] == acc0[t - 1]);
                }
            }
        }
        i = i + 1;
    }
    proof {
        assert(sv.skip(slots@.len() as int) =~= Seq::<SlotModel>::empty());
    }
    out
}

// The table layout: one to three columns of `name | count x` cells inside
// box-drawing borders, then a three-row footer.  Every row is
// `1 + 34 * columns` characters wide before its newline.

/// How many columns the table uses for the given stack count.
pub open spec fn inv_columns(k: int) -> int {
    if k <= 8 {
        1
    } else if k <= 26 {
        2
    } else {
        3
    }
}

/// One filled cell: the item name padded to 21, a separator, the count
/// right-aligned to 6 with an `x`.
pub open spec fn filled_cell(s: SlotModel) -> Seq<char> {
    seq![' '] + pad_right_spec(s.item.id.1, 21) + seq![' ', '\u{2502}', ' '] + pad_left_spec(
        dec_nat(s.count as nat),
        6,
    ) + seq!['x', ' ', '\u{2502}']
}

/// One blank cell, as wide as a filled one.
pub open spec fn empty_cell() -> Seq<char> {
    seq![' '] + repeat_char(' ', 21) + seq![' ', '\u{2502}', ' '] + repeat_char(' ', 7) + seq![
        ' ',
        '\u{2502}',
    ]
}

/// One header cell.
pub open spec fn header_cell() -> Seq<char> {
    seq![' '] + pad_right_spec("Item"@, 21) + seq![' ', '\u{2502}', ' '] + pad_left_spec(
        "Amount"@,
        7,
    ) + seq![' ', '\u{2502}']
}

/// The dashes and joints of a border row, one segment per column.
pub open spec fn border_cells(cols: int, m: char) -> Seq<char>
    decreases cols,
{
    if cols <= 0 {
        Seq::empty()
    } else {
        repeat_char('\u{2500}', 23) + seq![m] + repeat_char('\u{2500}', 9) + (if cols > 1 {
            seq![m] + border_cells(cols - 1, m)
        } else {
            Seq::empty()
        })
    }
}

pub open spec fn border_row(l: char, m: char, r: char, cols: int) -> Seq<char> {
    seq![l] + border_cells(cols, m) + seq![r, '\n']
}

pub open spec fn header_cells(cols: int) -> Seq<char>
    decreases cols,
{
    if cols <= 0 {
        Seq::empty()
    } else {
        header_cell() + header_cells(cols - 1)
    }
}

/// The cells of one body row: the chunk's stacks, then blanks.
pub open spec fn row_cells(chunk: Seq<SlotModel>, cols: int) -> Seq<char>
    decreases cols,
{
    if cols <= 0 {
        Seq::empty()
    } else if chunk.len() == 0 {
        empty_cell() + row_cells(chunk, cols - 1)
    } else {
        filled_cell(chunk[0]) + row_cells(chunk.drop_first(), cols - 1)
    }
}

/// The body rows: the stacks in chunks of `cols`.
pub open spec fn body_rows(slots: Seq<SlotModel>, cols: int) -> Seq<char>
    decreases slots.len(),
    when cols >= 1
{
    if slots.len() == 0 {
        Seq::empty()
    } else {
        let m = if slots.len() < cols {
            slots.len() as int
        } else {
            cols
        };
        seq!['\u{2502}'] + row_cells(slots.take(m), cols) + seq!['\n'] + body_rows(
            slots.skip(m),
            cols,
        )
    }
}

/// One footer row: a 13-character label cell and a right-aligned value.
pub open spec fn footer_row(label: Seq<char>, text: Seq<char>, valw: int) -> Seq<char> {
    seq!['\u{2502}'] + label + seq!['\u{2502}', ' '] + pad_left_spec(text, valw) + seq![
        ' ',
        '\u{2502}',
        '\n',
    ]
}

/// The whole table for already sorted stacks: borders, header, body (one
/// blank row when empty), and the totals, stacks and money footer.
pub open spec fn inventory_table(
    slots: Seq<SlotModel>,
    money: Option<u32>,
    max_slots: int,
) -> Seq<char> {
    let cols = inv_columns(slots.len() as int);
    let roww = 1 + 34 * cols;
    let valw = roww - 18;
    border_row('\u{256D}', '\u{252C}', '\u{256E}', cols) + seq!['\u{2502}'] + header_cells(cols)
        + seq!['\n'] + border_row('\u{251C}', '\u{253C}', '\u{2524}', cols) + (if slots.len()
        == 0 {
        seq!['\u{2502}'] + row_cells(Seq::<SlotModel>::empty(), cols) + seq!['\n']
    } else {
        body_rows(slots, cols)
    }) + (seq!['\u{251C}'] + repeat_char('\u{2500}', 13) + seq!['\u{252C}'] + repeat_char(
        '\u{2500}',
        roww - 16,
    ) + seq!['\u{2524}', '\n']) + footer_row(
        " Total Items "@,
        dec_nat(count_all(slots) as nat) + seq!['/'] + dec_nat((max_slots * 64) as nat),
        valw,
    ) + footer_row(
        " Stacks      "@,
        dec_nat(slots.len()) + seq!['/'] + dec_nat(max_slots as nat),
        valw,
    ) + footer_row(
        " Money       "@,
        match money {
            Some(v) => dec_nat(v as nat),
            None => "N/A"@,
        },
        valw,
    ) + (seq!['\u{2570}'] + repeat_char('\u{2500}', 13) + seq!['\u{2534}'] + repeat_char(
        '\u{2500}',
        roww - 16,
    ) + seq!['\u{256F}', '\n'])
}

fn push_border_cells(out: &mut Vec<char>, cols: usize, m: char)
    ensures
        final(out)@ == old(out)@ + border_cells(cols as int, m),
    decreases cols,
{
    if cols == 0 {
        proof {
            assert(out@ =~= old(out)@ + border_cells(0, m));
        }
    } else {
        push_repeat(out, '\u{2500}', 23);
        out.push(m);
        push_repeat(out, '\u{2500}', 9);
        if cols > 1 {
            out.push(m);
            push_border_cells(out, cols - 1, m);
        }
        proof {
            assert(out@ =~= old(out)@ + border_cells(cols as int, m));
        }
    }
}

fn push_border_row(out: &mut Vec<char>, l: char, m: char, r: char, cols: usize)
    ensures
        final(out)@ == old(out)@ + border_row(l, m, r, cols as int),
{
    out.push(l);
    push_border_cells(out, cols, m);
    out.push(r);
    out.push('\n');
    proof {
        assert(out@ =~= old(out)@ + border_row(l, m, r, cols as int));
    }
}

fn push_header_cells(out: &mut Vec<char>, cols: usize)
    ensures
        final(out)@ == old(out)@ + header_cells(cols as int),
    decreases cols,
{
    if cols == 0 {
        proof {
            assert(out@ =~= old(out)@ + header_cells(0));
        }
    } else {
        out.push(' ');
        let item_text = chars_of("Item");
        push_pad_right(out, &item_text, 21);
        out.push(' ');
        out.push('\u{2502}');
        out.push(' ');
        let amount_text = chars_of("Amount");
        push_pad_left(out, &amount_text, 7);
        out.push(' ');
        out.push('\u{2502}');
        push_header_cells(out, cols - 1);
        proof {
            assert(out@ =~= old(out)@ + header_cells(cols as int));
        }
    }
}

fn push_row_cells(out: &mut Vec<char>, sorted: &Vec<Slot>, from: usize, to: usize, cols: usize)
    requires
        from <= to <= sorted@.len(),
    ensures
        final(out)@ == old(out)@ + row_cells(
            slots_view(sorted@).subrange(from as int, to as int),
            cols as int,
        ),
    decreases cols,
{
    let ghost chunk = slots_view(sorted@).subrange(from as int, to as int);
    if cols == 0 {
        proof {
            assert(out@ =~= old(out)@ + row_cells(chunk, 0));
        }
    } else if from >= to {
        out.push(' ');
        push_repeat(out, ' ', 21);
        out.push(' ');
        out.push('\u{2502}');
        out.push(' ');
        push_repeat(out, ' ', 7);
        out.push(' ');
        out.push('\u{2502}');
        push_row_cells(out, sorted, from, to, cols - 1);
        proof {
            assert(out@ =~= old(out)@ + row_cells(chunk, cols as int));
        }
    } else {
        proof {
            assert(chunk[0] == slot_view(sorted@[from as int]));
            assert(chunk.drop_first() =~= slots_view(sorted@).subrange(
                from + 1 as int,
                to as int,
            ));
        }
        out.push(' ');
        let name_text = chars_of(sorted[from].item.id.name.as_str());
        push_pad_right(out, &name_text, 21);
        out.push(' ');
        out.push('\u{2502}');
        out.push(' ');
        let mut count_text: Vec<char> = Vec::new();
        push_dec_u32(&mut count_text, sorted[from].count);
        push_pad_left(out, &count_text, 6);
        out.push('x');
        out.push(' ');
        out.push('\u{2502}');
        push_row_cells(out, sorted, from + 1, to, cols - 1);
        proof {
            assert(out@ =~= old(out)@ + row_cells(chunk, cols as int));
        }
    }
}

fn push_body_rows(out: &mut Vec<char>, sorted: &Vec<Slot>, from: usize, cols: usize)
    requires
        1 <= cols,
        from <= sorted@.len(),
    ensures
        final(out)@ == old(out)@ + body_rows(slots_view(sorted@).skip(from as int), cols as int),
    decreases sorted@.len() - from,
{
    let ghost rest = slots_view(sorted@).skip(from as int);
    if from == sorted.len() {
        proof {
            assert(rest =~= Seq::<SlotModel>::empty());
            assert(out@ =~= old(out)@ + body_rows(rest, cols as int));
        }
    } else {
        let to = if sorted.len() - from < cols {
            sorted.len()
        } else {
            from + cols
        };
        proof {
            let m = if rest.len() < cols {
                rest.len() as int
            } else {
                cols as int
            };
            assert(rest.take(m) =~= slots_view(sorted@).subrange(from as int, to as int));
            assert(rest.skip(m) =~= slots_view(sorted@).skip(to as int));
        }
        out.push('\u{2502}');
        push_row_cells(out, sorted, from, to, cols);
        out.push('\n');
        push_body_rows(out, sorted, to, cols);
        proof {
            assert(out@ =~= old(out)@ + body_rows(rest, cols as int));
        }
    }
}

fn push_footer_row(out: &mut Vec<char>, label: &str, text: &Vec<char>, valw: usize)
    ensures
        final(out)@ == old(out)@ + footer_row(label@, text@, valw as int),
{
    out.push('\u{2502}');
    push_str_chars(out, label);
    out.push('\u{2502}');
    out.push(' ');
    push_pad_left(out, text, valw);
    out.push(' ');
    out.push('\u{2502}');
    out.push('\n');
    proof {
        assert(out@ =~= old(out)@ + footer_row(label@, text@, valw as int));
    }
}

impl Inventory {
    /// The inventory as a bordered table: the stacks sorted stably by
    /// lowercased item name, laid out in one to three columns by stack
    /// count, with a footer giving the item total against the capacity,
    /// the stack count against the slot limit, and the owner's money.
    #[verifier::rlimit(80)]
    pub fn render(&self) -> (r: String)
        requires
            count_all(slots_view(self.slots@)) <= u32::MAX,
            self.max_slots * 64 <= u32::MAX,
        ensures
            r@ == inventory_table(
                sort_slots(slots_view(self.slots@)),
                self.owner_money,
                self.max_slots as int,
            ),
    {
        let ghost sv = sort_slots(slots_view(self.slots@));
        proof {
            lemma_sort_measures(slots_view(self.slots@));
            lemma_count_all_bounds(slots_view(self.slots@));
        }
        let sorted = sort_by_name(&self.slots);
        let k = sorted.len();
        let cols: usize = if k <= 8 {
            1
        } else {
            if k <= 26 {
                2
            } else {
                3
            }
        };
        let roww: usize = 1 + 34 * cols;
        let valw: usize = roww - 18;
        let mut out: Vec<char> = Vec::new();
        proof {
            assert(cols as int == inv_columns(sv.len() as int));
            assert(roww as int == 1 + 34 * (cols as int));
            assert(valw as int == roww - 18);
        }
        let ghost t1 = border_row('\u{256D}', '\u{252C}', '\u{256E}', cols as int);
        push_border_row(&mut out, '\u{256D}', '\u{252C}', '\u{256E}', cols);
        proof {
            assert(out@ =~= t1);
        }
        out.push('\u{2502}');
        push_header_cells(&mut out, cols);
        out.push('\n');
        let ghost t2 = t1 + seq!['\u{2502}'] + header_cells(cols as int) + seq!['\n'];
        proof {
            assert(out@ =~= t2);
        }
        push_border_row(&mut out, '\u{251C}', '\u{253C}', '\u{2524}', cols);
        let ghost t3 = t2 + border_row('\u{251C}', '\u{253C}', '\u{2524}', cols as int);
        proof {
            assert(out@ =~= t3);
        }
        if k == 0 {
            out.push('\u{2502}');
            push_row_cells(&mut out, &sorted, 0, 0, cols);
            out.push('\n');
            proof {
                assert(slots_view(sorted@).subrange(0, 0) =~= Seq::<SlotModel>::empty());
            }
        } else {
            proof {
                assert(slots_view(sorted@).skip(0) =~= slots_view(sorted@));
            }
            push_body_rows(&mut out, &sorted, 0, cols);
        }
        let ghost t4 = t3 + (if sv.len() == 0 {
            seq!['\u{2502}'] + row_cells(Seq::<SlotModel>::empty(), cols as int) + seq!['\n']
        } else {
            body_rows(sv, cols as int)
        });
        proof {
            assert(out@ =~= t4);
        }
        out.push('\u{251C}');
        push_repeat(&mut out, '\u{2500}', 13);
        out.push('\u{252C}');
        push_repeat(&mut out, '\u{2500}', roww - 16);
        out.push('\u{2524}');
        out.push('\n');
        let ghost t5 = t4 + (seq!['\u{251C}'] + repeat_char('\u{2500}', 13) + seq!['\u{252C}']
            + repeat_char('\u{2500}', roww - 16) + seq!['\u{2524}', '\n']);
        proof {
            assert(out@ =~= t5);
        }

        let total = self.total_items();
        let mut total_text: Vec<char> = Vec::new();
        push_dec_u32(&mut total_text, total);
        total_text.push('/');
        push_dec_u32(&mut total_text, (self.max_slots as u32) * 64);
        proof {
            assert(total_text@ =~= dec_nat(count_all(sv) as nat) + seq!['/'] + dec_nat(
                (self.max_slots * 64) as nat,
            ));
        }
        push_footer_row(&mut out, " Total Items ", &total_text, valw);
        let ghost t6 = t5 + footer_row(
            " Total Items "@,
            dec_nat(count_all(sv) as nat) + seq!['/'] + dec_nat((self.max_slots * 64) as nat),
            valw as int,
        );
        proof {
            assert(out@ =~= t6);
        }

        let mut stacks_text: Vec<char> = Vec::new();
        push_dec_u64(&mut stacks_text, k as u64);
        stacks_text.push('/');
        push_dec_u64(&mut stacks_text, self.max_slots as u64);
        proof {
            assert(stacks_text@ =~= dec_nat(sv.len()) + seq!['/'] + dec_nat(
                self.max_slots as nat,
            ));
        }
        push_footer_row(&mut out, " Stacks      ", &stacks_text, valw);
        let ghost t7 = t6 + footer_row(
            " Stacks      "@,
            dec_nat(sv.len()) + seq!['/'] + dec_nat(self.max_slots as nat),
            valw as int,
        );
        proof {
            assert(out@ =~= t7);
        }

        let mut money_text: Vec<char> = Vec::new();
        match self.owner_money {
            Some(v) => {
                push_dec_u32(&mut money_text, v);
            },
            None => {
                push_str_chars(&mut money_text, "N/A");
            },
        }
        proof {
            assert(money_text@ =~= (match self.owner_money {
                Some(v) => dec_nat(v as nat),
                None => "N/A"@,
            }));
        }
        push_footer_row(&mut out, " Money       ", &money_text, valw);
        let ghost t8 = t7 + footer_row(
            " Money       "@,
            match self.owner_money {
                Some(v) => dec_nat(v as nat),
                None => "N/A"@,
            },
            valw as int,
        );
        proof {
            assert(out@ =~= t8);
        }

        out.push('\u{2570}');
        push_repeat(&mut out, '\u{2500}', 13);
        out.push('\u{2534}');
        push_repeat(&mut out, '\u{2500}', roww - 16);
        out.push('\u{256F}');
        out.push('\n');
        let ghost t9 = t8 + (seq!['\u{2570}'] + repeat_char('\u{2500}', 13) + seq!['\u{2534}']
            + repeat_char('\u{2500}', roww - 16) + seq!['\u{256F}', '\n']);
        proof {
            assert(out@ =~= t9);
            assert(t9 =~= inventory_table(sv, self.owner_money, self.max_slots as int));
        }
        string_from_chars(&out)
    }
}

} // verus!

