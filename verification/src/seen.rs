//! The set of cards that a player has seen, and its listing in order.

use crate::text::{
    is_before, lemma_before_irreflexive, lemma_before_total, lemma_before_transitive, same_text,
    text_before, Text,
};
use vstd::prelude::*;

verus! {

/// The characters of a row of strings.
pub open spec fn texts(row: Seq<String>) -> Seq<Text> {
    row.map_values(|s: String| s@)
}

/// Appends a line to `row`.
pub fn push_line(row: &mut Vec<String>, line: String)
    ensures
        texts(final(row)@) == texts(old(row)@) + seq![line@],
{
    let ghost first = texts(row@);
    let ghost text = line@;
    row.push(line);
    assert(texts(row@) =~= first + seq![text]);
}

/// Moves the lines of `more` to the end of `row`.
pub fn append_all(row: &mut Vec<String>, more: &mut Vec<String>)
    ensures
        texts(final(row)@) == texts(old(row)@) + texts(old(more)@),
        final(more)@.len() == 0,
{
    let ghost first = texts(row@);
    let ghost second = texts(more@);
    row.append(more);
    assert(texts(row@) =~= first + second);
}

/// A set of card names.
#[derive(Debug)]
pub struct CardSet {
    names: Vec<String>,
}

impl View for CardSet {
    type V = Set<Text>;

    closed spec fn view(&self) -> Set<Text> {
        texts(self.names@).to_set()
    }
}

/// Whether `list` names the members of `set`, each once, in the order of texts.
pub open spec fn is_listing(list: Seq<Text>, set: Set<Text>) -> bool {
    &&& forall|p: int, q: int|
        0 <= p < q < list.len() ==> text_before(#[trigger] list[p], #[trigger] list[q])
    &&& forall|t: Text| #[trigger] list.contains(t) <==> set.contains(t)
}

/// The members of `set` in the order of texts.
pub open spec fn listing(set: Set<Text>) -> Seq<Text> {
    choose|list: Seq<Text>| is_listing(list, set)
}

/// A set has at most one listing.
pub proof fn lemma_listing_unique(a: Seq<Text>, b: Seq<Text>, set: Set<Text>)
    requires
        is_listing(a, set),
        is_listing(b, set),
    ensures
        a == b,
{
    lemma_listing_prefix(a, b, set, a.len() as int);
    lemma_listing_prefix(b, a, set, b.len() as int);
    assert(a =~= b);
}

/// Two listings agree as far as the first one goes.
proof fn lemma_listing_prefix(a: Seq<Text>, b: Seq<Text>, set: Set<Text>, n: int)
    requires
        is_listing(a, set),
        is_listing(b, set),
        0 <= n <= a.len(),
    ensures
        n <= b.len(),
        forall|p: int| 0 <= p < n ==> a[p] == b[p],
    decreases n,
{
    if n > 0 {
        let p = n - 1;
        lemma_listing_prefix(a, b, set, p);
        lemma_before_irreflexive(a[p]);
        assert(a.contains(a[p]));
        assert(b.contains(a[p]));
        let q = choose|q: int| 0 <= q < b.len() && b[q] == a[p];
        if q < p {
            assert(text_before(a[q], a[p]));
        }
        if q > p {
            assert(b.contains(b[p]));
            assert(a.contains(b[p]));
            let r = choose|r: int| 0 <= r < a.len() && a[r] == b[p];
            assert(text_before(b[p], b[q]));
            lemma_before_irreflexive(b[p]);
            if r < p {
                assert(text_before(b[r], b[p]));
            } else if r > p {
                assert(text_before(a[p], a[r]));
                lemma_before_transitive(a[p], b[p], a[p]);
            }
        }
    }
}

/// A row that lists a set is its listing.
pub proof fn lemma_is_listing(list: Seq<Text>, set: Set<Text>)
    requires
        is_listing(list, set),
    ensures
        listing(set) == list,
{
    lemma_listing_unique(listing(set), list, set);
}

/// Putting a new member at its place keeps a listing.
proof fn lemma_listing_insert(list: Seq<Text>, set: Set<Text>, slot: int, new: Text)
    requires
        is_listing(list, set),
        0 <= slot <= list.len(),
        forall|p: int| 0 <= p < slot ==> text_before(#[trigger] list[p], new),
        forall|p: int| slot <= p < list.len() ==> text_before(new, #[trigger] list[p]),
    ensures
        is_listing(list.insert(slot, new), set.insert(new)),
{
    let wide = list.insert(slot, new);
    assert forall|p: int, q: int| 0 <= p < q < wide.len() implies text_before(
        #[trigger] wide[p],
        #[trigger] wide[q],
    ) by {
        let p0 = if p < slot {
            p
        } else {
            p - 1
        };
        let q0 = if q < slot {
            q
        } else {
            q - 1
        };
        if p != slot && q != slot {
            assert(text_before(list[p0], list[q0]));
        } else if p == slot {
            assert(wide[q] == list[q0]);
        } else {
            assert(wide[p] == list[p0]);
        }
    }
    assert forall|t: Text| #[trigger] wide.contains(t) <==> set.insert(new).contains(t) by {
        if list.contains(t) {
            let p = choose|p: int| 0 <= p < list.len() && list[p] == t;
            if p < slot {
                assert(wide[p] == t);
            } else {
                assert(wide[p + 1] == t);
            }
        }
        assert(wide[slot] == new);
        if wide.contains(t) && t != new {
            let p = choose|p: int| 0 <= p < wide.len() && wide[p] == t;
            if p < slot {
                assert(list[p] == t);
            } else {
                assert(list[p - 1] == t);
            }
        }
    }
}

/// Every finite set has a listing.
pub proof fn lemma_listing(set: Set<Text>)
    requires
        set.finite(),
    ensures
        is_listing(listing(set), set),
    decreases set.len(),
{
    if set.len() == 0 {
        assert(set =~= Set::<Text>::empty());
        assert(is_listing(Seq::<Text>::empty(), set));
    } else {
        let new = set.choose();
        let rest = set.remove(new);
        lemma_listing(rest);
        let list = listing(rest);
        let slot = lemma_place(list, rest, new, list.len() as int);
        lemma_listing_insert(list, rest, slot, new);
        assert(rest.insert(new) =~= set);
        lemma_is_listing(list.insert(slot, new), set);
    }
}

/// The place of a new member among the first `n` of a listing.
proof fn lemma_place(list: Seq<Text>, set: Set<Text>, new: Text, n: int) -> (slot: int)
    requires
        is_listing(list, set),
        !set.contains(new),
        0 <= n <= list.len(),
    ensures
        0 <= slot <= n,
        forall|p: int| 0 <= p < slot ==> text_before(#[trigger] list[p], new),
        forall|p: int| slot <= p < n ==> text_before(new, #[trigger] list[p]),
    decreases n,
{
    if n == 0 {
        0
    } else {
        let last = list[n - 1];
        assert(list.contains(last));
        lemma_before_total(last, new);
        if text_before(last, new) {
            assert forall|p: int| 0 <= p < n implies text_before(#[trigger] list[p], new) by {
                if p < n - 1 {
                    lemma_before_transitive(list[p], last, new);
                }
            }
            n
        } else {
            lemma_place(list, set, new, n - 1)
        }
    }
}

/// Puts `name` at its place in an ordered list, unless it is there.
fn insert_in_order(list: &mut Vec<String>, name: &String, Ghost(set): Ghost<Set<Text>>)
    requires
        is_listing(texts(old(list)@), set),
    ensures
        is_listing(texts(final(list)@), set.insert(name@)),
{
    let ghost row = texts(list@);
    let mut slot: usize = 0;
    while slot < list.len() && is_before(list[slot].as_str(), name.as_str())
        invariant
            row == texts(list@),
            slot <= list@.len(),
            forall|p: int| 0 <= p < slot ==> text_before(#[trigger] row[p], name@),
        decreases list@.len() - slot,
    {
        assert(row[slot as int] == list@[slot as int]@);
        slot += 1;
    }
    if slot < list.len() && same_text(list[slot].as_str(), name.as_str()) {
        assert(row[slot as int] == name@);
        assert(row.contains(name@));
        assert(set.insert(name@) =~= set);
        return ;
    }
    proof {
        assert forall|p: int| slot <= p < row.len() implies text_before(
            name@,
            #[trigger] row[p],
        ) by {
            assert(row[slot as int] == list@[slot as int]@);
            lemma_before_total(name@, row[slot as int]);
            if p > slot {
                assert(text_before(row[slot as int], row[p]));
                lemma_before_transitive(name@, row[slot as int], row[p]);
            }
        }
        lemma_listing_insert(row, set, slot as int, name@);
    }
    list.insert(slot, name.clone());
    assert(texts(list@) =~= row.insert(slot as int, name@));
}

impl CardSet {
    /// A set without members.
    pub fn new() -> (set: CardSet)
        ensures
            set@ == Set::<Text>::empty(),
    {
        let set = CardSet { names: Vec::new() };
        assert(set@ =~= Set::<Text>::empty());
        set
    }

    /// Adds a name.
    pub fn insert(&mut self, name: &str)
        ensures
            final(self)@ == old(self)@.insert(name@),
    {
        let ghost row = texts(self.names@);
        let mut i: usize = 0;
        while i < self.names.len()
            invariant
                self.names@ == old(self).names@,
                row == texts(self.names@),
                i <= self.names@.len(),
            decreases self.names@.len() - i,
        {
            if same_text(self.names[i].as_str(), name) {
                assert(row[i as int] == name@);
                assert(self@.insert(name@) =~= self@);
                return ;
            }
            i += 1;
        }
        self.names.push(name.to_string());
        proof {
            assert(texts(self.names@) =~= row.push(name@));
            assert forall|t: Text| #[trigger] self@.contains(t) <==> old(self)@.insert(
                name@,
            ).contains(t) by {
                if row.contains(t) {
                    let p = choose|p: int| 0 <= p < row.len() && row[p] == t;
                    assert(row.push(name@)[p] == t);
                }
                assert(row.push(name@)[row.len() as int] == name@);
            }
            assert(self@ =~= old(self)@.insert(name@));
        }
    }

    /// The members in the order of their characters.
    pub fn sorted(&self) -> (list: Vec<String>)
        ensures
            texts(list@) == listing(self@),
            is_listing(texts(list@), self@),
    {
        let mut list: Vec<String> = Vec::new();
        let mut i: usize = 0;
        let ghost row = texts(self.names@);
        let ghost mut set = Set::<Text>::empty();
        assert(is_listing(texts(list@), set));
        while i < self.names.len()
            invariant
                row == texts(self.names@),
                i <= self.names@.len(),
                is_listing(texts(list@), set),
                forall|t: Text| #[trigger] set.contains(t) <==> row.take(i as int).contains(t),
            decreases self.names@.len() - i,
        {
            insert_in_order(&mut list, &self.names[i], Ghost(set));
            proof {
                let name = row[i as int];
                assert(name == self.names@[i as int]@);
                let grown = set.insert(name);
                assert forall|t: Text| #[trigger] grown.contains(t) <==> row.take(i + 1).contains(
                    t,
                ) by {
                    let short = row.take(i as int);
                    let long = row.take(i + 1);
                    if short.contains(t) {
                        let p = choose|p: int| 0 <= p < short.len() && short[p] == t;
                        assert(long[p] == t);
                    }
                    assert(long[i as int] == name);
                    if long.contains(t) && t != name {
                        let p = choose|p: int| 0 <= p < long.len() && long[p] == t;
                        assert(short[p] == t);
                    }
                }
                set = grown;
            }
            i += 1;
        }
        proof {
            assert(row.take(row.len() as int) =~= row);
            assert(set =~= self@);
            lemma_is_listing(texts(list@), self@);
        }
        list
    }
}

} // verus!
