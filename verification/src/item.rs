//! The things that lie on the floor and fill an inventory, and the listing of
//! an inventory by kind.

use vstd::prelude::*;

verus! {

/// The kinds of item, in the order in which an inventory lists them.
#[derive(Debug, Clone, Copy, PartialEq, Eq, Hash, PartialOrd, Ord, Structural)]
pub enum Item {
    PotionHealth,
    PotionStrength,
    BombBlast,
    BombIce,
}

/// The number of kinds of item.
pub const ITEM_KINDS: usize = 4;

impl Item {
    /// The place of this kind in the listing order.
    pub open spec fn spec_rank(self) -> nat {
        match self {
            Item::PotionHealth => 0,
            Item::PotionStrength => 1,
            Item::BombBlast => 2,
            Item::BombIce => 3,
        }
    }

    /// The place of this kind in the listing order.
    pub fn rank(self) -> (r: usize)
        ensures
            r == self.spec_rank(),
            r < ITEM_KINDS,
    {
        match self {
            Item::PotionHealth => 0,
            Item::PotionStrength => 1,
            Item::BombBlast => 2,
            Item::BombIce => 3,
        }
    }

    /// The kind at place `rank` of the listing order.
    pub open spec fn spec_of_rank(rank: nat) -> Item {
        if rank == 0 {
            Item::PotionHealth
        } else if rank == 1 {
            Item::PotionStrength
        } else if rank == 2 {
            Item::BombBlast
        } else {
            Item::BombIce
        }
    }

    /// The kind that the two top bits of a draw choose.
    pub fn of_rank(rank: usize) -> (r: Item)
        ensures
            r == Self::spec_of_rank(rank as nat),
    {
        if rank == 0 {
            Item::PotionHealth
        } else if rank == 1 {
            Item::PotionStrength
        } else if rank == 2 {
            Item::BombBlast
        } else {
            Item::BombIce
        }
    }

    /// A potion is drunk at once; a bomb needs a target.
    pub open spec fn spec_is_potion(self) -> bool {
        self == Item::PotionHealth || self == Item::PotionStrength
    }

    /// Whether this kind is drunk rather than thrown.
    #[verifier::when_used_as_spec(spec_is_potion)]
    pub fn is_potion(self) -> (r: bool)
        ensures
            r == self.spec_is_potion(),
    {
        match self {
            Item::PotionHealth | Item::PotionStrength => true,
            _ => false,
        }
    }

    /// The name under which an inventory lists this kind.
    pub fn name(self) -> (r: &'static str)
        ensures
            self == Item::PotionHealth ==> r@ == "Potion of Restore Health"@,
            self == Item::PotionStrength ==> r@ == "Potion of Gain Strength"@,
            self == Item::BombBlast ==> r@ == "Blast Bomb"@,
            self == Item::BombIce ==> r@ == "Ice Bomb"@,
    {
        match self {
            Item::PotionHealth => "Potion of Restore Health",
            Item::PotionStrength => "Potion of Gain Strength",
            Item::BombBlast => "Blast Bomb",
            Item::BombIce => "Ice Bomb",
        }
    }
}

/// How many items of `kind` the inventory `inv` holds.
pub open spec fn count_of(inv: Seq<Item>, kind: Item) -> nat
    decreases inv.len(),
{
    if inv.len() == 0 {
        0
    } else {
        count_of(inv.drop_last(), kind) + if inv.last() == kind {
            1nat
        } else {
            0nat
        }
    }
}

/// The index of the first item of `kind` in `inv`, or the length of `inv`
/// if it holds none.
pub open spec fn first_of(inv: Seq<Item>, kind: Item) -> int
    decreases inv.len(),
{
    if inv.len() == 0 {
        0
    } else if inv.first() == kind {
        0
    } else {
        1 + first_of(inv.drop_first(), kind)
    }
}

/// `inv` without its first item of `kind`; `inv` itself if it holds none.
pub open spec fn without_one(inv: Seq<Item>, kind: Item) -> Seq<Item> {
    if first_of(inv, kind) < inv.len() {
        inv.remove(first_of(inv, kind))
    } else {
        inv
    }
}

/// The sequence of `kind` alone if `inv` holds one, else the empty one.
pub open spec fn listed(inv: Seq<Item>, kind: Item) -> Seq<Item> {
    if count_of(inv, kind) > 0 {
        seq![kind]
    } else {
        Seq::empty()
    }
}

/// The kinds that `inv` holds, each once, in listing order. An inventory
/// screen gives the first of them the letter `a`, the next `b`, and so on.
pub open spec fn kinds_held(inv: Seq<Item>) -> Seq<Item> {
    listed(inv, Item::PotionHealth) + listed(inv, Item::PotionStrength) + listed(
        inv,
        Item::BombBlast,
    ) + listed(inv, Item::BombIce)
}

/// The place in the listing that `letter` stands for: `a` is 0, `b` is 1.
/// Anything but a lower-case letter stands for no place.
pub open spec fn spec_letter_place(letter: char) -> Option<nat> {
    if 'a' <= letter && letter <= 'z' {
        Some((letter as u32 - 'a' as u32) as nat)
    } else {
        None
    }
}

/// The place in the listing that `letter` stands for, if any.
pub fn letter_place(letter: char) -> (r: Option<usize>)
    ensures
        r is Some == spec_letter_place(letter) is Some,
        r is Some ==> r->0 == spec_letter_place(letter)->0,
        r is Some ==> r->0 < 26,
{
    if 'a' <= letter && letter <= 'z' {
        Some((letter as u32 - 'a' as u32) as usize)
    } else {
        None
    }
}

/// The kind that `letter` selects in `inv`, if any.
pub open spec fn kind_for_letter(inv: Seq<Item>, letter: char) -> Option<Item> {
    match spec_letter_place(letter) {
        Some(place) => if place < kinds_held(inv).len() {
            Some(kinds_held(inv)[place as int])
        } else {
            None
        },
        None => None,
    }
}

/// An inventory holds a kind exactly if it counts at least one of it, and
/// then the first of that kind has an index.
pub proof fn lemma_count_of_contains(inv: Seq<Item>, kind: Item)
    ensures
        count_of(inv, kind) > 0 <==> inv.contains(kind),
        count_of(inv, kind) > 0 <==> first_of(inv, kind) < inv.len(),
        0 <= first_of(inv, kind) <= inv.len(),
        first_of(inv, kind) < inv.len() ==> inv[first_of(inv, kind)] == kind,
        forall|i: int| 0 <= i < first_of(inv, kind) ==> inv[i] != kind,
        count_of(inv, kind) <= inv.len(),
    decreases inv.len(),
{
    if inv.len() > 0 {
        lemma_count_of_contains(inv.drop_last(), kind);
        lemma_first_of_bounds(inv, kind);
        if inv.last() == kind {
            assert(inv[inv.len() - 1] == kind);
        } else if inv.contains(kind) {
            let i = choose|i: int| 0 <= i < inv.len() && inv[i] == kind;
            assert(inv.drop_last()[i] == kind);
        }
        if inv.drop_last().contains(kind) {
            let i = choose|i: int| 0 <= i < inv.drop_last().len() && inv.drop_last()[i] == kind;
            assert(inv[i] == kind);
        }
    }
}

/// The first item of a kind lies within the inventory, is of that kind,
/// and nothing before it is.
pub proof fn lemma_first_of_bounds(inv: Seq<Item>, kind: Item)
    ensures
        0 <= first_of(inv, kind) <= inv.len(),
        first_of(inv, kind) < inv.len() ==> inv[first_of(inv, kind)] == kind,
        forall|i: int| 0 <= i < first_of(inv, kind) ==> inv[i] != kind,
        first_of(inv, kind) == inv.len() ==> !inv.contains(kind),
    decreases inv.len(),
{
    if inv.len() > 0 && inv.first() != kind {
        let rest = inv.drop_first();
        lemma_first_of_bounds(rest, kind);
        assert forall|i: int| 0 <= i < first_of(inv, kind) implies inv[i] != kind by {
            if i > 0 {
                assert(rest[i - 1] == inv[i]);
            }
        }
        if first_of(inv, kind) < inv.len() {
            assert(rest[first_of(rest, kind)] == inv[first_of(inv, kind)]);
        }
    }
}

/// How many items of `kind` the inventory holds.
pub fn count_items(inv: &Vec<Item>, kind: Item) -> (n: usize)
    ensures
        n == count_of(inv@, kind),
{
    let mut n: usize = 0;
    let mut i: usize = 0;
    while i < inv.len()
        invariant
            i <= inv.len(),
            n == count_of(inv@.take(i as int), kind),
            n <= i,
        decreases inv.len() - i,
    {
        proof {
            assert(inv@.take(i + 1).drop_last() =~= inv@.take(i as int));
        }
        if inv[i] == kind {
            n = n + 1;
        }
        i = i + 1;
    }
    proof {
        assert(inv@.take(inv.len() as int) =~= inv@);
    }
    n
}

/// The listing of an inventory: each kind it holds with the number held, in
/// listing order.
pub fn catalog(inv: &Vec<Item>) -> (r: Vec<(Item, usize)>)
    ensures
        r@.len() == kinds_held(inv@).len(),
        forall|i: int|
            0 <= i < r@.len() ==> (#[trigger] r@[i]).0 == kinds_held(inv@)[i] && r@[i].1
                == count_of(inv@, r@[i].0),
{
    let mut out: Vec<(Item, usize)> = Vec::new();
    let mut rank: usize = 0;
    let ghost mut kinds: Seq<Item> = Seq::empty();
    while rank < ITEM_KINDS
        invariant
            rank <= ITEM_KINDS,
            out@.len() == kinds.len(),
            forall|i: int|
                0 <= i < out@.len() ==> (#[trigger] out@[i]).0 == kinds[i] && out@[i].1
                    == count_of(inv@, out@[i].0),
            rank == 0 ==> kinds == Seq::<Item>::empty(),
            rank == 1 ==> kinds == listed(inv@, Item::PotionHealth),
            rank == 2 ==> kinds == listed(inv@, Item::PotionHealth) + listed(
                inv@,
                Item::PotionStrength,
            ),
            rank == 3 ==> kinds == listed(inv@, Item::PotionHealth) + listed(
                inv@,
                Item::PotionStrength,
            ) + listed(inv@, Item::BombBlast),
            rank == 4 ==> kinds == kinds_held(inv@),
        decreases ITEM_KINDS - rank,
    {
        let kind = Item::of_rank(rank);
        let n = count_items(inv, kind);
        proof {
            assert(Seq::<Item>::empty() + listed(inv@, kind) =~= listed(inv@, kind));
            kinds = kinds + listed(inv@, kind);
        }
        if n > 0 {
            out.push((kind, n));
        }
        rank = rank + 1;
    }
    out
}

/// The kind that `letter` selects in the inventory, if any.
pub fn item_for_letter(inv: &Vec<Item>, letter: char) -> (r: Option<Item>)
    ensures
        r == kind_for_letter(inv@, letter),
{
    match letter_place(letter) {
        Some(place) => {
            let listing = catalog(inv);
            if place < listing.len() {
                Some(listing[place].0)
            } else {
                None
            }
        },
        None => None,
    }
}

/// Takes the first item of `kind` out of the inventory, if it holds one.
pub fn take_one(inv: &mut Vec<Item>, kind: Item)
    ensures
        final(inv)@ == without_one(old(inv)@, kind),
{
    let mut i: usize = 0;
    while i < inv.len()
        invariant
            i <= inv.len(),
            *inv == *old(inv),
            forall|j: int| 0 <= j < i ==> inv@[j] != kind,
        decreases inv.len() - i,
    {
        if inv[i] == kind {
            proof {
                lemma_first_of_bounds(inv@, kind);
                let f = first_of(inv@, kind);
                if f < i {
                    assert(inv@[f] == kind);
                }
                if f > i {
                    assert(inv@[i as int] != kind);
                }
            }
            inv.remove(i);
            return ;
        }
        i = i + 1;
    }
    proof {
        lemma_first_of_bounds(inv@, kind);
    }
}

} // verus!
