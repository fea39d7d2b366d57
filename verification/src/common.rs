//! Shared data shapes: cards and the messages exchanged with the
//! transport layer at the engine's boundary.

use vstd::prelude::*;

verus! {

/// Number of cards dealt for one turn's hand.
pub const CARDCOUNT: usize = 4;

/// Fixed size, in characters, of a submitted answer on the wire;
/// shorter answers are padded with spaces.
pub const BYTECOUNT: usize = 4;

/// The raw characters of one submitted answer.
pub type DataArr = [char; BYTECOUNT];

/// The snapshot of the four cards dealt for one turn.
pub type HandCardData = [Card; CARDCOUNT];

/// The kind of a card: one of the four suits, or a joker.
#[derive(Clone, Copy, PartialEq, Eq, Structural, Debug, Hash)]
pub enum CardType {
    Joker,
    Sword,
    Club,
    Gold,
    Cup,
}

/// One card: a kind and a rank. The rank 0 is reserved for jokers;
/// suit cards carry 1 through 12.
#[derive(Clone, Copy, PartialEq, Eq, Structural, Debug, Hash)]
pub struct Card {
    pub _type: CardType,
    pub value: u8,
}

impl Card {
    /// A card is well formed when its rank is playable: jokers carry the
    /// reserved value 0, every other kind carries 1 through 12.
    pub open spec fn wf(self) -> bool {
        &&& self.value <= 12
        &&& (self._type is Joker <==> self.value == 0)
    }
}

/// One answer record: a number and the answer characters it came from.
pub struct Entry {
    pub number: i64,
    pub data: DataArr,
}

/// What a player sends to the table.
pub enum FromClientMessage {
    /// Liveness probe.
    Ping,
    /// Ask for a new hand to be dealt.
    Game,
    /// Submit an answer for the open turn.
    Answer(DataArr),
}

/// What the table sends back to a player.
pub enum FromServerMessage {
    /// Reply to a ping on a connection-oriented transport.
    Pong(usize),
    /// Reply to a ping on a connectionless transport.
    UnknownPong,
    /// A new turn opens with these four cards.
    TurnBegin(HandCardData),
    /// The answer did not win; the turn stays open.
    TurnContinue,
    /// The turn ended and the addressed player won it.
    TurnYouWin,
    /// The turn ended and another player won it.
    TurnOtherWin,
    /// The turn ended tied; the cards move to the accumulation pile.
    TurnTied,
}

} // verus!
