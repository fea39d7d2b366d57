//! The deck catalog, the card stacks, and the table that deals, reclaims
//! and awards cards across the piles of one game session.

use vstd::prelude::*;
use vstd::multiset::Multiset;
use vstd::string::StringSliceAdditionalSpecFns;
use vstd::string::StrSliceExecFns;
use rand::seq::SliceRandom;
use crate::common::{Card, CardType};

verus! {

broadcast use vstd::seq_lib::group_to_multiset_ensures;

/// The ids 0, 1, ..., n-1 that a deck of n cards mints, in minting order.
pub open spec fn id_range(n: nat) -> Seq<u8> {
    Seq::new(n, |i: int| i as u8)
}

/// Relies on rand::seq::SliceRandom::shuffle: it permutes the slice in
/// place by a walk of swaps, so whatever order the generator picks, the
/// multiset of elements is unchanged.
#[verifier::external_body]
fn shuffle_ids(ids: &mut Vec<u8>)
    ensures
        final(ids)@.to_multiset() == old(ids)@.to_multiset(),
{
    ids.shuffle(&mut rand::thread_rng());
}

/// The card that position `i` of a freshly loaded deck holds: two jokers
/// first, then each suit from rank 12 down to rank 1.
pub open spec fn spec_card_at(i: int) -> Card {
    if i < 2 {
        Card { _type: CardType::Joker, value: 0 }
    } else {
        Card { _type: spec_suit((i - 2) / 12), value: (12 - (i - 2) % 12) as u8 }
    }
}

/// The suit loaded in block `k` of the deck.
pub open spec fn spec_suit(k: int) -> CardType {
    if k == 0 {
        CardType::Sword
    } else if k == 1 {
        CardType::Club
    } else if k == 2 {
        CardType::Gold
    } else {
        CardType::Cup
    }
}

/// The full catalog: two jokers and four suits of ranks 12 down to 1.
pub open spec fn full_deck() -> Seq<Card> {
    Seq::new(50, |i: int| spec_card_at(i))
}

/// The immutable catalog of card identities. Every card is addressed by a
/// stable id: its index in this list. Stacks hold ids, never cards.
pub struct Deck {
    cards: Vec<Card>,
}

impl View for Deck {
    type V = Seq<Card>;

    closed spec fn view(&self) -> Seq<Card> {
        self.cards@
    }
}

/// A card catalog is well formed when its ids fit in a `u8` and every card
/// it holds is itself well formed.
pub open spec fn deck_wf(cards: Seq<Card>) -> bool {
    &&& cards.len() <= 256
    &&& forall|i: int| 0 <= i < cards.len() ==> (#[trigger] cards[i]).wf()
}

impl Deck {
    /// Well-formedness of the catalog.
    pub open spec fn wf(self) -> bool {
        deck_wf(self@)
    }

    /// A new deck holding the full catalog.
    pub fn new() -> (r: Deck)
        ensures
            r@ == full_deck(),
            r.wf(),
    {
        let mut me = Deck { cards: Vec::<Card>::new() };
        load_cards(&mut me);
        proof {
            assert forall|i: int| 0 <= i < me@.len() implies (#[trigger] me@[i]).wf() by {
                assert(0 <= (i - 2) % 12 < 12);
            }
        }
        me
    }

    /// Append one card to the catalog (construction time only).
    pub fn add(&mut self, _type: CardType, value: u8)
        requires
            old(self)@.len() < 256,
        ensures
            final(self)@ == old(self)@.push(Card { _type, value }),
    {
        self.cards.push(Card { _type, value });
    }

    /// The ids of all cards, in minting order.
    pub fn as_ids(&self) -> (r: Vec<u8>)
        requires
            self@.len() <= 256,
        ensures
            r@ == id_range(self@.len()),
    {
        let mut ids: Vec<u8> = Vec::new();
        let mut i: usize = 0;
        while i < self.cards.len()
            invariant
                i <= self@.len() <= 256,
                ids@ == id_range(i as nat),
            decreases self@.len() - i,
        {
            ids.push(i as u8);
            i = i + 1;
            proof {
                assert(ids@ =~= id_range(i as nat));
            }
        }
        ids
    }

    /// The ids put into circulation. Jokers stay in circulation: whether a
    /// rank of 0 is playable is a table rule, not a deck rule.
    pub fn as_ids_no_jokers(&self) -> (r: Vec<u8>)
        requires
            self@.len() <= 256,
        ensures
            r@ == id_range(self@.len()),
    {
        self.as_ids()
    }

    /// The card an id addresses, or `None` for an id the deck never minted.
    pub fn get_card(&self, id: &u8) -> (r: Option<&Card>)
        ensures
            (*id as int) < self@.len() ==> (r matches Some(c) && *c == self@[*id as int]),
            (*id as int) >= self@.len() ==> r is None,
    {
        if (*id as usize) < self.cards.len() {
            Some(&self.cards[*id as usize])
        } else {
            None
        }
    }

    /// The card addressed by position `i` of a list of ids.
    pub fn get_card_pos(&self, i: usize, card_ids: &Vec<u8>) -> (r: Option<&Card>)
        ensures
            i < card_ids@.len() && (card_ids@[i as int] as int) < self@.len() ==> (r matches Some(c)
                && *c == self@[card_ids@[i as int] as int]),
            i < card_ids@.len() && (card_ids@[i as int] as int) >= self@.len() ==> r is None,
            i >= card_ids@.len() ==> r is None,
    {
        if i < card_ids.len() {
            self.get_card(&card_ids[i])
        } else {
            None
        }
    }

    /// The cards a stack holds, in stack order.
    pub fn get_cards_from_stack(&self, stack: &CardStack) -> (r: Vec<Card>)
        requires
            forall|i: int| 0 <= i < stack@.len() ==> (#[trigger] stack@[i] as int) < self@.len(),
        ensures
            r@ == stack@.map_values(|id: u8| self@[id as int]),
    {
        let mut cards: Vec<Card> = Vec::new();
        let mut i: usize = 0;
        while i < stack.card_ids.len()
            invariant
                i <= stack@.len(),
                forall|k: int| 0 <= k < stack@.len() ==> (#[trigger] stack@[k] as int) < self@.len(),
                cards@ == stack@.take(i as int).map_values(|id: u8| self@[id as int]),
            decreases stack@.len() - i,
        {
            let id = stack.card_ids[i];
            cards.push(self.cards[id as usize]);
            i = i + 1;
            proof {
                assert(cards@ =~= stack@.take(i as int).map_values(|id: u8| self@[id as int]));
            }
        }
        proof {
            assert(stack@.take(stack@.len() as int) =~= stack@);
        }
        cards
    }
}

/// Fill an empty deck with the full catalog; `Deck::new` is its caller.
pub(crate) fn load_cards(deck: &mut Deck)
    requires
        old(deck)@.len() == 0,
    ensures
        final(deck)@ == full_deck(),
{
    deck.add(CardType::Joker, 0);
    deck.add(CardType::Joker, 0);
    let mut k: usize = 0;
    while k < 4
        invariant
            k <= 4,
            deck@.len() == 2 + k * 12,
            forall|i: int| 0 <= i < deck@.len() ==> deck@[i] == spec_card_at(i),
        decreases 4 - k,
    {
        let suit = if k == 0 {
            CardType::Sword
        } else if k == 1 {
            CardType::Club
        } else if k == 2 {
            CardType::Gold
        } else {
            CardType::Cup
        };
        let mut step: usize = 0;
        while step < 12
            invariant
                k < 4,
                step <= 12,
                suit == spec_suit(k as int),
                deck@.len() == 2 + k * 12 + step,
                forall|i: int| 0 <= i < deck@.len() ==> deck@[i] == spec_card_at(i),
            decreases 12 - step,
        {
            deck.add(suit, (12 - step) as u8);
            proof {
                let i = 2 + k * 12 + step;
                assert((k * 12 + step) / 12 == k && (k * 12 + step) % 12 == step)
                    by (nonlinear_arith)
                    requires
                        0 <= step < 12,
                        0 <= k,
                ;
                assert(deck@[i as int] == spec_card_at(i as int));
            }
            step = step + 1;
        }
        k = k + 1;
    }
    proof {
        assert(final(deck)@ =~= full_deck());
    }
}

/// One pile of cards: an ordered stack of card ids, face up or face down.
/// Ids near the end of the sequence are the top of the stack.
pub struct CardStack {
    is_face_up: bool,
    card_ids: Vec<u8>,
}

impl View for CardStack {
    type V = Seq<u8>;

    closed spec fn view(&self) -> Seq<u8> {
        self.card_ids@
    }
}

impl CardStack {
    /// Whether the pile lies face up on the table.
    pub closed spec fn spec_face_up(self) -> bool {
        self.is_face_up
    }

    /// A new, empty pile.
    pub fn new(is_face_up: bool) -> (r: CardStack)
        ensures
            r@ == Seq::<u8>::empty(),
            r.spec_face_up() == is_face_up,
    {
        CardStack { is_face_up, card_ids: Vec::<u8>::new() }
    }

    /// Replace this pile's contents with every id of the deck.
    pub fn add_cards(&mut self, deck: &Deck)
        requires
            deck@.len() <= 256,
        ensures
            final(self)@ == id_range(deck@.len()),
            final(self).spec_face_up() == old(self).spec_face_up(),
    {
        self.card_ids = deck.as_ids_no_jokers();
    }

    /// Move every id of `from` onto this pile, leaving `from` empty.
    pub fn add_all_from(&mut self, from: &mut CardStack)
        ensures
            final(self)@ == old(self)@ + old(from)@,
            final(from)@ == Seq::<u8>::empty(),
            final(self).spec_face_up() == old(self).spec_face_up(),
            final(from).spec_face_up() == old(from).spec_face_up(),
    {
        self.card_ids.append(&mut from.card_ids);
    }

    /// Move the top id of `from` onto this pile; false when `from` is empty.
    pub fn add_one_from(&mut self, from: &mut CardStack) -> (r: bool)
        ensures
            old(from)@.len() > 0 ==> r && final(self)@ == old(self)@.push(old(from)@.last())
                && final(from)@ == old(from)@.drop_last(),
            old(from)@.len() == 0 ==> !r && final(self)@ == old(self)@ && final(from)@ == old(from)@,
            final(self).spec_face_up() == old(self).spec_face_up(),
            final(from).spec_face_up() == old(from).spec_face_up(),
    {
        let mut result = false;
        if let Some(id) = from.card_ids.pop() {
            self.card_ids.push(id);
            result = true;
        }
        result
    }

    /// Move up to `n` ids from the top of `from` onto this pile, one at a
    /// time. Returns false when `from` ran out first; the ids popped before
    /// exhaustion was detected stay moved (the transfer is not atomic).
    pub fn add_n_from(&mut self, from: &mut CardStack, n: u8) -> (r: bool)
        ensures
            r == (old(from)@.len() >= n),
            old(from)@.len() >= n ==> final(self)@ == old(self)@ + old(from)@.skip(old(from)@.len() - n).reverse()
                && final(from)@ == old(from)@.take(old(from)@.len() - n),
            old(from)@.len() < n ==> final(self)@ == old(self)@ + old(from)@.reverse()
                && final(from)@ == Seq::<u8>::empty(),
            final(self).spec_face_up() == old(self).spec_face_up(),
            final(from).spec_face_up() == old(from).spec_face_up(),
    {
        let ghost from0 = old(from)@;
        let mut result = true;
        let mut j: u8 = 0;
        while result && j < n
            invariant
                j <= n,
                from0.len() >= j,
                result ==> from@ == from0.take(from0.len() - j) && self@ == old(self)@
                    + from0.skip(from0.len() - j).reverse(),
                !result ==> from0.len() < n && from@ == Seq::<u8>::empty() && self@ == old(self)@
                    + from0.reverse(),
                self.spec_face_up() == old(self).spec_face_up(),
                from.spec_face_up() == old(from).spec_face_up(),
            decreases n - j, (if result { 1int } else { 0int }),
        {
            let moved = self.add_one_from(from);
            if !moved {
                proof {
                    assert(from0.take(from0.len() - j).len() == 0);
                    assert(from0.len() == j < n);
                    assert(from0.skip(0) =~= from0);
                }
                result = false;
            } else {
                j = j + 1;
                proof {
                    let l = from0.len() as int;
                    assert(from0.take(l - (j - 1)).drop_last() =~= from0.take(l - j));
                    assert(from0.take(l - (j - 1)).last() == from0[l - j]);
                    assert(from0.skip(l - (j - 1)).reverse().push(from0[l - j]) =~= from0.skip(l - j).reverse());
                }
            }
        }
        proof {
            if result {
                assert(from0.len() >= n);
            }
        }
        result
    }

    /// Re-order this pile randomly; which ids it holds is unchanged.
    pub fn shuffle(&mut self)
        ensures
            final(self)@.to_multiset() == old(self)@.to_multiset(),
            final(self).spec_face_up() == old(self).spec_face_up(),
    {
        shuffle_ids(&mut self.card_ids);
    }

    /// Whether the pile holds no cards.
    pub fn is_empty(&self) -> (r: bool)
        ensures
            r == (self@.len() == 0),
    {
        self.card_ids.is_empty()
    }

    /// How many cards the pile holds.
    pub fn len(&self) -> (n: usize)
        ensures
            n == self@.len(),
    {
        self.card_ids.len()
    }

    /// A copy of the pile's ids, bottom first.
    pub fn ids(&self) -> (r: Vec<u8>)
        ensures
            r@ == self@,
    {
        let mut out: Vec<u8> = Vec::new();
        let mut i: usize = 0;
        while i < self.card_ids.len()
            invariant
                i <= self@.len(),
                out@ == self@.take(i as int),
            decreases self@.len() - i,
        {
            out.push(self.card_ids[i]);
            i = i + 1;
            proof {
                assert(out@ =~= self@.take(i as int));
            }
        }
        proof {
            assert(self@.take(self@.len() as int) =~= self@);
        }
        out
    }
}

/// The multiset of ids held by a sequence of piles.
pub open spec fn stacks_ids(ss: Seq<Seq<u8>>) -> Multiset<u8>
    decreases ss.len(),
{
    if ss.len() == 0 {
        Multiset::<u8>::empty()
    } else {
        ss.first().to_multiset().add(stacks_ids(ss.drop_first()))
    }
}

/// Appending a pile to a pile sequence adds exactly that pile's ids to the
/// union of the sequence.
proof fn lemma_stacks_ids_push(ss: Seq<Seq<u8>>, s: Seq<u8>)
    ensures
        stacks_ids(ss.push(s)) == stacks_ids(ss).add(s.to_multiset()),
    decreases ss.len(),
{
    broadcast use vstd::multiset::group_multiset_axioms;

    if ss.len() == 0 {
        assert(ss.push(s).drop_first() =~= Seq::<Seq<u8>>::empty());
        assert(stacks_ids(Seq::<Seq<u8>>::empty()) == Multiset::<u8>::empty());
        assert(ss.push(s).first() == s);
        assert(stacks_ids(ss.push(s)) =~= stacks_ids(ss).add(s.to_multiset()));
    } else {
        lemma_stacks_ids_push(ss.drop_first(), s);
        assert(ss.push(s).drop_first() =~= ss.drop_first().push(s));
        assert(ss.push(s).first() == ss.first());
        assert(stacks_ids(ss.push(s)) == ss.first().to_multiset().add(
            stacks_ids(ss.drop_first().push(s)),
        ));
        assert(stacks_ids(ss) == ss.first().to_multiset().add(stacks_ids(ss.drop_first())));
        assert(stacks_ids(ss.push(s)) =~= stacks_ids(ss).add(s.to_multiset()));
    }
}

/// Exchanging one pile of a pile sequence exchanges exactly its ids in the
/// union of the sequence.
proof fn lemma_stacks_ids_update(ss: Seq<Seq<u8>>, u: int, s: Seq<u8>)
    requires
        0 <= u < ss.len(),
    ensures
        stacks_ids(ss.update(u, s)).add(ss[u].to_multiset()) == stacks_ids(ss).add(
            s.to_multiset(),
        ),
    decreases ss.len(),
{
    broadcast use vstd::multiset::group_multiset_axioms;

    if u == 0 {
        assert(ss.update(0, s).first() == s);
        assert(ss.update(0, s).drop_first() =~= ss.drop_first());
        assert(stacks_ids(ss.update(0, s)) == s.to_multiset().add(stacks_ids(ss.drop_first())));
        assert(stacks_ids(ss) == ss[0].to_multiset().add(stacks_ids(ss.drop_first())));
        assert(stacks_ids(ss.update(0, s)).add(ss[0].to_multiset()) =~= stacks_ids(ss).add(
            s.to_multiset(),
        ));
    } else {
        lemma_stacks_ids_update(ss.drop_first(), u - 1, s);
        assert(ss.update(u, s).drop_first() =~= ss.drop_first().update(u - 1, s));
        assert(ss.update(u, s).first() == ss.first());
        assert(ss.drop_first()[u - 1] == ss[u]);
        assert(stacks_ids(ss.update(u, s)) == ss.first().to_multiset().add(
            stacks_ids(ss.drop_first().update(u - 1, s)),
        ));
        assert(stacks_ids(ss) == ss.first().to_multiset().add(stacks_ids(ss.drop_first())));
        let lhs = stacks_ids(ss.update(u, s)).add(ss[u].to_multiset());
        let rhs = stacks_ids(ss).add(s.to_multiset());
        assert forall|v: u8| lhs.count(v) == rhs.count(v) by {
            assert(stacks_ids(ss.drop_first().update(u - 1, s)).add(
                ss.drop_first()[u - 1].to_multiset(),
            ).count(v) == stacks_ids(ss.drop_first()).add(s.to_multiset()).count(v));
        }
        assert(lhs =~= rhs);
    }
}

/// The outcome of one turn.
#[derive(Clone, Copy, PartialEq, Eq, Structural, Debug)]
pub enum TurnResult {
    /// The given player won the turn and takes the cards.
    Winner(usize),
    /// The turn tied: the hand moves to the accumulation pile.
    Tie,
    /// The turn is still open; the player may submit again.
    Gaming,
    /// The turn was given up; no cards move.
    Abandoned,
}

/// One table session: the deck catalog and the five piles its ids move
/// through. Piles are mutated only through this type's own operations.
pub struct Game24 {
    deck: Deck,
    hidden_cards: CardStack,
    visible_cards: CardStack,
    players_cards: Vec<CardStack>,
    accumulate_cards: CardStack,
    operation: String,
    turn_num: u8,
}

impl Game24 {
    /// The cards of the catalog, by id.
    pub closed spec fn spec_deck(self) -> Seq<Card> {
        self.deck@
    }

    /// The ids of the face-down draw pile.
    pub closed spec fn spec_hidden(self) -> Seq<u8> {
        self.hidden_cards@
    }

    /// The ids of the face-up hand in play.
    pub closed spec fn spec_visible(self) -> Seq<u8> {
        self.visible_cards@
    }

    /// The ids of each player's winnings pile.
    pub closed spec fn spec_players(self) -> Seq<Seq<u8>> {
        self.players_cards@.map_values(|s: CardStack| s@)
    }

    /// The ids accumulated by tied turns.
    pub closed spec fn spec_accumulate(self) -> Seq<u8> {
        self.accumulate_cards@
    }

    /// The configured target of the game, as text.
    pub closed spec fn spec_operation(self) -> Seq<char> {
        self.operation@
    }

    /// How many turns have been played.
    pub closed spec fn spec_turn_num(self) -> u8 {
        self.turn_num
    }

    /// The multiset of ids across all piles of the table.
    pub open spec fn all_ids(self) -> Multiset<u8> {
        self.spec_hidden().to_multiset().add(self.spec_visible().to_multiset()).add(
            stacks_ids(self.spec_players()),
        ).add(self.spec_accumulate().to_multiset())
    }

    /// Conservation: every id the deck minted lies in exactly one pile, so
    /// the union of all piles is exactly the minted id range.
    pub open spec fn ids_conserved(self) -> bool {
        self.all_ids() == id_range(self.spec_deck().len()).to_multiset()
    }

    /// A well-formed table: a well-formed deck, at least two player piles,
    /// and conservation of the minted ids.
    pub open spec fn wf(self) -> bool {
        &&& deck_wf(self.spec_deck())
        &&& self.spec_players().len() >= 2
        &&& self.ids_conserved()
    }

    /// A fresh table: the full catalog shuffled into the hidden pile, an
    /// empty hand, two empty player piles and an empty accumulation pile.
    pub fn new() -> (r: Game24)
        ensures
            r.wf(),
            r.spec_deck() == full_deck(),
            r.spec_hidden().to_multiset() == id_range(50).to_multiset(),
            r.spec_visible() == Seq::<u8>::empty(),
            r.spec_players() =~= seq![Seq::<u8>::empty(), Seq::<u8>::empty()],
            r.spec_accumulate() == Seq::<u8>::empty(),
            r.spec_turn_num() == 0,
    {
        let mut hidden_cards = CardStack::new(false);
        let deck = Deck::new();
        hidden_cards.add_cards(&deck);
        hidden_cards.shuffle();
        let mut players_cards = Vec::<CardStack>::new();
        players_cards.push(CardStack::new(false));
        players_cards.push(CardStack::new(false));
        let r = Game24 {
            deck,
            hidden_cards,
            visible_cards: CardStack::new(true),
            players_cards,
            accumulate_cards: CardStack::new(false),
            operation: "24".to_owned(),
            turn_num: 0,
        };
        proof {
            broadcast use vstd::multiset::group_multiset_axioms;

            assert(r.spec_players() =~= seq![Seq::<u8>::empty(), Seq::<u8>::empty()]);
            lemma_stacks_ids_all_empty(r.spec_players());
            assert(r.all_ids() =~= r.spec_hidden().to_multiset());
        }
        r
    }

    /// Reclaim every pile into the hidden stack, then reshuffle it.
    pub fn reset(&mut self)
        requires
            old(self).wf(),
        ensures
            final(self).wf(),
            final(self).spec_deck() == old(self).spec_deck(),
            final(self).spec_operation() == old(self).spec_operation(),
            final(self).spec_turn_num() == old(self).spec_turn_num(),
            final(self).spec_hidden().to_multiset() == id_range(
                old(self).spec_deck().len(),
            ).to_multiset(),
            final(self).spec_visible() == Seq::<u8>::empty(),
            final(self).spec_accumulate() == Seq::<u8>::empty(),
            final(self).spec_players().len() == old(self).spec_players().len(),
            forall|i: int|
                0 <= i < final(self).spec_players().len() ==> final(self).spec_players()[i]
                    == Seq::<u8>::empty(),
    {
        let ghost p0 = old(self).spec_players();
        self.hidden_cards.add_all_from(&mut self.visible_cards);
        proof {
            broadcast use vstd::multiset::group_multiset_axioms;

            vstd::seq_lib::lemma_multiset_commutative(
                old(self).spec_hidden(),
                old(self).spec_visible(),
            );
            assert(p0.take(0) =~= Seq::<Seq<u8>>::empty());
            assert(stacks_ids(Seq::<Seq<u8>>::empty()) == Multiset::<u8>::empty());
            assert(self.hidden_cards@.to_multiset() =~= old(self).spec_hidden().to_multiset().add(
                old(self).spec_visible().to_multiset(),
            ).add(stacks_ids(p0.take(0))));
        }
        let mut i: usize = 0;
        while i < self.players_cards.len()
            invariant
                i <= p0.len(),
                self.players_cards@.len() == p0.len(),
                forall|k: int| 0 <= k < i ==> self.players_cards@[k]@ == Seq::<u8>::empty(),
                forall|k: int| i <= k < p0.len() ==> self.players_cards@[k]@ == p0[k],
                self.hidden_cards@.to_multiset() == old(self).spec_hidden().to_multiset().add(
                    old(self).spec_visible().to_multiset(),
                ).add(stacks_ids(p0.take(i as int))),
                self.visible_cards@ == Seq::<u8>::empty(),
                self.accumulate_cards == old(self).accumulate_cards,
                self.deck == old(self).deck,
                self.operation == old(self).operation,
                self.turn_num == old(self).turn_num,
            decreases p0.len() - i,
        {
            let ghost pb = self.players_cards@;
            let ghost hb = self.hidden_cards@;
            let mut pile = self.players_cards.remove(i);
            self.hidden_cards.add_all_from(&mut pile);
            let ghost pile_v = pile;
            self.players_cards.insert(i, pile);
            proof {
                broadcast use vstd::multiset::group_multiset_axioms;

                assert(self.players_cards@ =~= pb.update(i as int, pile_v));
                assert(pb[i as int]@ == p0[i as int]);
                vstd::seq_lib::lemma_multiset_commutative(hb, p0[i as int]);
                lemma_stacks_ids_push(p0.take(i as int), p0[i as int]);
                assert(p0.take(i as int).push(p0[i as int]) =~= p0.take(i as int + 1));
                assert(self.hidden_cards@.to_multiset() =~= old(self).spec_hidden().to_multiset()
                    .add(old(self).spec_visible().to_multiset()).add(
                    stacks_ids(p0.take(i as int + 1)),
                ));
            }
            i = i + 1;
        }
        let ghost hb2 = self.hidden_cards@;
        self.hidden_cards.add_all_from(&mut self.accumulate_cards);
        self.hidden_cards.shuffle();
        proof {
            broadcast use vstd::multiset::group_multiset_axioms;

            assert(p0.take(p0.len() as int) =~= p0);
            vstd::seq_lib::lemma_multiset_commutative(hb2, old(self).spec_accumulate());
            assert(self.hidden_cards@.to_multiset() =~= old(self).all_ids());
            lemma_stacks_ids_all_empty(self.spec_players());
            assert(self.all_ids() =~= self.hidden_cards@.to_multiset());
        }
    }

    /// Deal a hand of four: when the hidden pile cannot supply it, first
    /// reclaim every pile — a leftover hand included — and reshuffle, then
    /// move four ids from the top of the hidden pile onto the visible one.
    /// Returns false only when the whole deck holds fewer than four cards.
    pub fn give_cards(&mut self) -> (r: bool)
        requires
            old(self).wf(),
        ensures
            final(self).wf(),
            final(self).spec_deck() == old(self).spec_deck(),
            final(self).spec_operation() == old(self).spec_operation(),
            final(self).spec_turn_num() == old(self).spec_turn_num(),
            final(self).spec_players().len() == old(self).spec_players().len(),
            r == (old(self).spec_deck().len() >= 4),
            old(self).spec_hidden().len() >= 4 ==> final(self).spec_hidden()
                == old(self).spec_hidden().take(old(self).spec_hidden().len() - 4)
                && final(self).spec_visible() == old(self).spec_visible()
                + old(self).spec_hidden().skip(old(self).spec_hidden().len() - 4).reverse()
                && final(self).spec_players() == old(self).spec_players()
                && final(self).spec_accumulate() == old(self).spec_accumulate(),
            old(self).spec_hidden().len() < 4 ==> final(self).spec_accumulate() == Seq::<u8>::empty()
                && (forall|i: int|
                    0 <= i < final(self).spec_players().len() ==> final(self).spec_players()[i]
                        == Seq::<u8>::empty())
                && (r ==> final(self).spec_visible().len() == 4)
                && (!r ==> final(self).spec_visible().len() == old(self).spec_deck().len()),
    {
        proof {
            broadcast use vstd::multiset::group_multiset_axioms;
        }
        if self.hidden_cards.len() < 4 {
            self.reset();
        }
        let ghost hb = self.hidden_cards@;
        let ghost vb = self.visible_cards@;
        let r = self.visible_cards.add_n_from(&mut self.hidden_cards, 4);
        proof {
            broadcast use vstd::multiset::group_multiset_axioms;

            assert(hb.to_multiset().len() == hb.len());
            assert(id_range(old(self).spec_deck().len()).to_multiset().len()
                == old(self).spec_deck().len());
            if old(self).spec_hidden().len() < 4 {
                assert(hb.len() == old(self).spec_deck().len());
                assert(vb =~= Seq::<u8>::empty());
            } else {
                assert(hb.len() <= old(self).spec_deck().len());
            }
            if r {
                assert(hb.take(hb.len() - 4) + hb.skip(hb.len() - 4) =~= hb);
                vstd::seq_lib::lemma_multiset_commutative(
                    hb.take(hb.len() - 4),
                    hb.skip(hb.len() - 4),
                );
                hb.skip(hb.len() - 4).lemma_reverse_to_multiset();
                vstd::seq_lib::lemma_multiset_commutative(vb, hb.skip(hb.len() - 4).reverse());
            } else {
                hb.lemma_reverse_to_multiset();
                vstd::seq_lib::lemma_multiset_commutative(vb, hb.reverse());
                assert(hb.take(0) =~= Seq::<u8>::empty());
            }
            assert(self.all_ids() =~= id_range(self.spec_deck().len()).to_multiset());
        }
        r
    }

    /// Close the open turn: the winner takes the accumulation pile and then
    /// the visible hand; a tie moves the hand onto the accumulation pile;
    /// any other outcome leaves every pile unchanged.
    pub fn end_turn(&mut self, result: TurnResult)
        requires
            old(self).wf(),
            result matches TurnResult::Winner(u) ==> u < old(self).spec_players().len(),
        ensures
            final(self).wf(),
            final(self).spec_deck() == old(self).spec_deck(),
            final(self).spec_operation() == old(self).spec_operation(),
            final(self).spec_turn_num() == old(self).spec_turn_num(),
            final(self).spec_hidden() == old(self).spec_hidden(),
            final(self).spec_players().len() == old(self).spec_players().len(),
            result matches TurnResult::Winner(u) ==> final(self).spec_visible() == Seq::<u8>::empty()
                && final(self).spec_accumulate() == Seq::<u8>::empty()
                && final(self).spec_players() == old(self).spec_players().update(
                    u as int,
                    old(self).spec_players()[u as int] + old(self).spec_accumulate()
                        + old(self).spec_visible(),
                ),
            result == TurnResult::Tie ==> final(self).spec_visible() == Seq::<u8>::empty()
                && final(self).spec_accumulate() == old(self).spec_accumulate()
                    + old(self).spec_visible()
                && final(self).spec_players() == old(self).spec_players(),
            result == TurnResult::Gaming || result == TurnResult::Abandoned ==> *final(self)
                == *old(self),
    {
        match result {
            TurnResult::Winner(user) => {
                let ghost pb = self.players_cards@;
                let mut pile = self.players_cards.remove(user);
                pile.add_all_from(&mut self.accumulate_cards);
                pile.add_all_from(&mut self.visible_cards);
                let ghost pile_v = pile;
                self.players_cards.insert(user, pile);
                proof {
                    broadcast use vstd::multiset::group_multiset_axioms;

                    assert(self.players_cards@ =~= pb.update(user as int, pile_v));
                    assert(self.spec_players() =~= old(self).spec_players().update(
                        user as int,
                        old(self).spec_players()[user as int] + old(self).spec_accumulate()
                            + old(self).spec_visible(),
                    ));
                    lemma_stacks_ids_update(
                        old(self).spec_players(),
                        user as int,
                        old(self).spec_players()[user as int] + old(self).spec_accumulate()
                            + old(self).spec_visible(),
                    );
                    vstd::seq_lib::lemma_multiset_commutative(
                        old(self).spec_players()[user as int] + old(self).spec_accumulate(),
                        old(self).spec_visible(),
                    );
                    vstd::seq_lib::lemma_multiset_commutative(
                        old(self).spec_players()[user as int],
                        old(self).spec_accumulate(),
                    );
                    assert forall|v: u8| self.all_ids().count(v) == old(self).all_ids().count(v) by {
                        assert(stacks_ids(self.spec_players()).add(
                            old(self).spec_players()[user as int].to_multiset(),
                        ).count(v) == stacks_ids(old(self).spec_players()).add(
                            (old(self).spec_players()[user as int] + old(self).spec_accumulate()
                                + old(self).spec_visible()).to_multiset(),
                        ).count(v));
                    }
                    assert(self.all_ids() =~= old(self).all_ids());
                }
            }
            TurnResult::Tie => {
                self.accumulate_cards.add_all_from(&mut self.visible_cards);
                proof {
                    broadcast use vstd::multiset::group_multiset_axioms;

                    vstd::seq_lib::lemma_multiset_commutative(
                        old(self).spec_accumulate(),
                        old(self).spec_visible(),
                    );
                    assert(self.all_ids() =~= old(self).all_ids());
                }
            }
            _ => (),
        }
    }

    /// The values of the visible hand's cards, in hand order.
    pub open spec fn spec_hand_values(self) -> Seq<u8> {
        self.spec_visible().map_values(|id: u8| self.spec_deck()[id as int].value)
    }

    /// Read the values of the visible hand's cards, in hand order.
    pub fn hand_values(&self) -> (r: Vec<u8>)
        requires
            self.wf(),
        ensures
            r@ == self.spec_hand_values(),
    {
        let mut values: Vec<u8> = Vec::new();
        let mut i: usize = 0;
        while i < self.visible_cards.card_ids.len()
            invariant
                self.wf(),
                i <= self.spec_visible().len(),
                values@ == self.spec_visible().take(i as int).map_values(
                    |id: u8| self.spec_deck()[id as int].value,
                ),
            decreases self.spec_visible().len() - i,
        {
            let id = self.visible_cards.card_ids[i];
            proof {
                broadcast use vstd::multiset::group_multiset_axioms;

                assert(self.spec_visible().contains(id));
                assert(self.spec_visible().to_multiset().count(id) > 0);
                assert(self.all_ids().count(id) >= self.spec_visible().to_multiset().count(id));
                lemma_conserved_id_in_range(*self, id);
            }
            values.push(self.deck.cards[id as usize].value);
            i = i + 1;
            proof {
                assert(values@ =~= self.spec_visible().take(i as int).map_values(
                    |id: u8| self.spec_deck()[id as int].value,
                ));
            }
        }
        proof {
            assert(self.spec_visible().take(self.spec_visible().len() as int)
                =~= self.spec_visible());
        }
        values
    }

    /// Resolve a submitted answer for the open turn: parse and evaluate it,
    /// validate card usage against the visible hand, and on a win close the
    /// turn in favour of `user`; on any other outcome the turn stays open
    /// and no pile moves.
    pub fn make_answer(&mut self, user: usize, answer: &str) -> (r: TurnResult)
        requires
            old(self).wf(),
            user < old(self).spec_players().len(),
        ensures
            final(self).wf(),
            final(self).spec_deck() == old(self).spec_deck(),
            final(self).spec_hidden() == old(self).spec_hidden(),
            final(self).spec_operation() == old(self).spec_operation(),
            final(self).spec_turn_num() == old(self).spec_turn_num(),
            final(self).spec_players().len() == old(self).spec_players().len(),
            r == crate::validator::spec_outcome(
                old(self).spec_hand_values(),
                answer.spec_bytes(),
                user,
            ),
            r matches TurnResult::Winner(u) ==> u == user && final(self).spec_visible() == Seq::<u8>::empty()
                && final(self).spec_accumulate() == Seq::<u8>::empty()
                && final(self).spec_players() == old(self).spec_players().update(
                    user as int,
                    old(self).spec_players()[user as int] + old(self).spec_accumulate()
                        + old(self).spec_visible(),
                ),
            r is Gaming ==> *final(self) == *old(self),
            r is Gaming || (r matches TurnResult::Winner(u2) && u2 == user),
    {
        let values = self.hand_values();
        let outcome = crate::validator::answer_outcome(&values, answer, user);
        match outcome {
            TurnResult::Winner(_) => {
                self.end_turn(outcome);
            },
            _ => {},
        }
        outcome
    }

    /// The card at position `i` of the visible hand, by deck lookup.
    pub fn get_gived_card(&self, i: usize) -> (r: Option<&Card>)
        requires
            self.wf(),
        ensures
            i < self.spec_visible().len() ==> (r matches Some(c) && *c == self.spec_deck()[self.spec_visible()[i as int] as int]),
            i >= self.spec_visible().len() ==> r is None,
    {
        proof {
            broadcast use vstd::multiset::group_multiset_axioms;

            if i < self.spec_visible().len() {
                let id = self.spec_visible()[i as int];
                assert(self.spec_visible().contains(id));
                assert(self.spec_visible().to_multiset().count(id) > 0);
                assert(self.all_ids().count(id) >= self.spec_visible().to_multiset().count(id));
                lemma_conserved_id_in_range(*self, id);
            }
        }
        self.deck.get_card_pos(i, &self.visible_cards.card_ids)
    }

    /// The numeric target read from the configured operation text.
    pub fn resolve_operation(&self) -> (r: Option<u16>)
        ensures
            r == spec_resolve(self.spec_operation()),
    {
        let s = self.operation.as_str();
        let n = s.unicode_len();
        if n == 0 {
            return None;
        }
        let mut acc: u32 = 0;
        let mut i: usize = 0;
        while i < n
            invariant
                i <= n,
                n == self.spec_operation().len(),
                s@ == self.spec_operation(),
                acc <= 655359,
                spec_parse_u16(s@, 0, 0) == spec_parse_u16(s@, i as nat, acc as int),
            decreases n - i,
        {
            if acc > 65535 {
                return None;
            }
            let c = s.get_char(i);
            let code = c as u32;
            if code < 48 || code > 57 {
                return None;
            }
            acc = acc * 10 + (code - 48);
            i = i + 1;
        }
        if acc > 65535 {
            None
        } else {
            Some(acc as u16)
        }
    }

    /// How many player piles the table has.
    pub fn players_count(&self) -> (n: usize)
        ensures
            n == self.spec_players().len(),
    {
        self.players_cards.len()
    }

    /// How many cards the hidden pile holds.
    pub fn hidden_len(&self) -> (n: usize)
        ensures
            n == self.spec_hidden().len(),
    {
        self.hidden_cards.len()
    }

    /// How many cards the visible hand holds.
    pub fn visible_len(&self) -> (n: usize)
        ensures
            n == self.spec_visible().len(),
    {
        self.visible_cards.len()
    }

    /// How many cards player `p` has won.
    pub fn player_len(&self, p: usize) -> (n: usize)
        requires
            p < self.spec_players().len(),
        ensures
            n == self.spec_players()[p as int].len(),
    {
        self.players_cards[p].len()
    }

    /// How many cards the accumulation pile holds.
    pub fn accumulate_len(&self) -> (n: usize)
        ensures
            n == self.spec_accumulate().len(),
    {
        self.accumulate_cards.len()
    }

    /// Every id on the table, pile by pile: hidden, then visible, then each
    /// player's pile, then the accumulation pile.
    pub fn all_card_ids(&self) -> (r: Vec<u8>)
        ensures
            r@.to_multiset() == self.all_ids(),
    {
        broadcast use vstd::multiset::group_multiset_axioms;

        let mut out = self.hidden_cards.ids();
        let mut vis = self.visible_cards.ids();
        let ghost h = self.spec_hidden();
        let ghost v = self.spec_visible();
        out.append(&mut vis);
        proof {
            vstd::seq_lib::lemma_multiset_commutative(h, v);
        }
        let mut i: usize = 0;
        while i < self.players_cards.len()
            invariant
                i <= self.spec_players().len(),
                self.spec_players().len() == self.players_cards@.len(),
                out@.to_multiset() == h.to_multiset().add(v.to_multiset()).add(
                    stacks_ids(self.spec_players().take(i as int)),
                ),
            decreases self.spec_players().len() - i,
        {
            broadcast use vstd::multiset::group_multiset_axioms;

            let ghost ob = out@;
            let mut pile = self.players_cards[i].ids();
            out.append(&mut pile);
            proof {
                let p = self.spec_players();
                vstd::seq_lib::lemma_multiset_commutative(ob, p[i as int]);
                lemma_stacks_ids_push(p.take(i as int), p[i as int]);
                assert(p.take(i as int).push(p[i as int]) =~= p.take(i as int + 1));
                assert(out@.to_multiset() =~= h.to_multiset().add(v.to_multiset()).add(
                    stacks_ids(p.take(i as int + 1)),
                ));
            }
            i = i + 1;
        }
        let ghost ob2 = out@;
        let mut acc = self.accumulate_cards.ids();
        out.append(&mut acc);
        proof {
            assert(self.spec_players().take(self.spec_players().len() as int)
                =~= self.spec_players());
            vstd::seq_lib::lemma_multiset_commutative(ob2, self.spec_accumulate());
            assert(out@.to_multiset() =~= self.all_ids());
        }
        out
    }
}

/// A decimal digit, as a character.
pub open spec fn is_digit_char(c: char) -> bool {
    48 <= (c as u32) && (c as u32) <= 57
}

/// The value of the all-digit text `s` from position `i` on, folded onto
/// `acc`: `None` as soon as the value outgrows a `u16` or a non-digit
/// stands in the way.
pub open spec fn spec_parse_u16(s: Seq<char>, i: nat, acc: int) -> Option<u16>
    decreases s.len() - i,
{
    if acc > u16::MAX as int {
        None
    } else if i >= s.len() {
        Some(acc as u16)
    } else if is_digit_char(s[i as int]) {
        spec_parse_u16(s, i + 1, acc * 10 + ((s[i as int] as u32) - 48))
    } else {
        None
    }
}

/// The numeric reading of a whole text: its decimal value when it is a
/// non-empty run of digits that fits a `u16`.
pub open spec fn spec_resolve(s: Seq<char>) -> Option<u16> {
    if s.len() == 0 {
        None
    } else {
        spec_parse_u16(s, 0, 0)
    }
}

/// Within a conserved table, every id a pile holds addresses a deck card.
proof fn lemma_conserved_id_in_range(g: Game24, id: u8)
    requires
        g.wf(),
        g.all_ids().count(id) > 0,
    ensures
        (id as int) < g.spec_deck().len(),
{
    broadcast use vstd::multiset::group_multiset_axioms;

    let n = g.spec_deck().len();
    assert(id_range(n).to_multiset().count(id) > 0);
    assert(id_range(n).contains(id));
    let i = choose|i: int| 0 <= i < n && id_range(n)[i] == id;
    assert(id_range(n)[i] == i as u8);
}

/// A pile sequence of empty piles holds no ids.
proof fn lemma_stacks_ids_all_empty(ss: Seq<Seq<u8>>)
    requires
        forall|i: int| 0 <= i < ss.len() ==> ss[i] == Seq::<u8>::empty(),
    ensures
        stacks_ids(ss) == Multiset::<u8>::empty(),
    decreases ss.len(),
{
    broadcast use vstd::multiset::group_multiset_axioms;

    if ss.len() > 0 {
        lemma_stacks_ids_all_empty(ss.drop_first());
        assert(ss.first().to_multiset().len() == 0);
        assert(stacks_ids(ss) =~= Multiset::<u8>::empty());
    }
}

} // verus!
