//! The IPC message: a few register words and capability-transfer descriptors.
//!
//! [`MessageInfo`] is the one-word descriptor that a caller sends. The caller is not trusted:
//! [`MessageInfo::decode`] refuses counts that exceed the fixed limits.

use crate::cap::cspace::{Cptr, GrantMode};
use crate::cap::rights::Rights;
use vstd::prelude::*;

verus! {

/// The number of data words in a message.
pub const MSG_REGS: usize = 4;

/// The number of capability transfers in a message.
pub const MAX_CAPS: usize = 2;

/// Why a descriptor word is refused.
#[derive(Clone, Copy, PartialEq, Eq, Structural, Debug)]
pub enum MsgError {
    /// It claims more than [`MSG_REGS`] words.
    TooManyRegs,
    /// It claims more than [`MAX_CAPS`] transfers.
    TooManyCaps,
}

/// A message descriptor: a label, and how many words and transfers follow.
#[derive(Clone, Copy, PartialEq, Eq, Structural, Debug)]
pub struct MessageInfo {
    /// The caller's method selector.
    pub label: u32,
    /// The number of data words.
    pub n_regs: u8,
    /// The number of transfers.
    pub n_caps: u8,
}

impl MessageInfo {
    /// The counts are within the limits.
    pub open spec fn wf(self) -> bool {
        self.n_regs <= MSG_REGS && self.n_caps <= MAX_CAPS
    }

    /// What is wrong with the counts.
    pub open spec fn count_error(n_regs: u8, n_caps: u8) -> Option<MsgError> {
        if n_regs > MSG_REGS {
            Some(MsgError::TooManyRegs)
        } else if n_caps > MAX_CAPS {
            Some(MsgError::TooManyCaps)
        } else {
            None
        }
    }

    /// The descriptor as a word: words in the low byte, transfers in the next, then the label.
    pub open spec fn word(self) -> int {
        self.label * 0x1_0000 + self.n_caps * 0x100 + self.n_regs
    }

    /// The fields of a word.
    pub open spec fn of_word(word: u64) -> MessageInfo {
        MessageInfo {
            label: ((word as int / 0x1_0000) % 0x1_0000_0000) as u32,
            n_regs: (word as int % 0x100) as u8,
            n_caps: ((word as int / 0x100) % 0x100) as u8,
        }
    }

    /// A descriptor with these counts, if they are within the limits.
    pub fn new(label: u32, n_regs: u8, n_caps: u8) -> (r: Result<MessageInfo, MsgError>)
        ensures
            r == match MessageInfo::count_error(n_regs, n_caps) {
                None => Ok(MessageInfo { label, n_regs, n_caps }),
                Some(e) => Err::<MessageInfo, MsgError>(e),
            },
    {
        if n_regs as usize > MSG_REGS {
            return Err(MsgError::TooManyRegs);
        }
        if n_caps as usize > MAX_CAPS {
            return Err(MsgError::TooManyCaps);
        }
        Ok(MessageInfo { label, n_regs, n_caps })
    }

    /// Pack into one word.
    #[must_use]
    pub fn encode(&self) -> (w: u64)
        ensures
            w == self.word(),
    {
        let label: u64 = self.label as u64;
        let caps: u64 = self.n_caps as u64;
        let regs: u64 = self.n_regs as u64;
        assert((label << 16) | (caps << 8) | regs == label * 0x1_0000 + caps * 0x100 + regs)
            by (bit_vector)
            requires
                label <= 0xffff_ffff,
                caps <= 0xff,
                regs <= 0xff,
        ;
        (label << 16) | (caps << 8) | regs
    }

    /// Unpack a word from an untrusted caller.
    pub fn decode(word: u64) -> (r: Result<MessageInfo, MsgError>)
        ensures
            r == match MessageInfo::count_error(
                MessageInfo::of_word(word).n_regs,
                MessageInfo::of_word(word).n_caps,
            ) {
                None => Ok(MessageInfo::of_word(word)),
                Some(e) => Err::<MessageInfo, MsgError>(e),
            },
    {
        assert(((word & 0xff) as u8) == word % 0x100 && (((word >> 8) & 0xff) as u8) == (word
            / 0x100) % 0x100 && (((word >> 16) & 0xffff_ffff) as u32) == (word / 0x1_0000)
            % 0x1_0000_0000) by (bit_vector);
        let n_regs: u8 = (word & 0xff) as u8;
        let n_caps: u8 = ((word >> 8) & 0xff) as u8;
        let label: u32 = ((word >> 16) & 0xffff_ffff) as u32;
        MessageInfo::new(label, n_regs, n_caps)
    }
}

/// A descriptor that was packed unpacks to itself.
pub proof fn law_descriptor_round_trip(mi: MessageInfo)
    ensures
        mi.word() <= u64::MAX,
        MessageInfo::of_word(mi.word() as u64) == mi,
{
}

/// Whatever the word, an unpacked descriptor that is accepted has counts within the limits.
pub proof fn law_accepted_descriptors_are_bounded(word: u64)
    ensures
        ({
            let mi = MessageInfo::of_word(word);
            (MessageInfo::count_error(mi.n_regs, mi.n_caps) is None) == mi.wf()
        }),
{
}

/// A capability transfer: the sender's slot, the rights to hand over, and whether the sender keeps
/// the capability.
#[derive(Clone, Copy, PartialEq, Eq, Structural, Debug)]
pub struct CapXfer {
    /// The slot in the sender's CSpace.
    pub src: Cptr,
    /// The rights that the transferred capability is to carry.
    pub rights: Rights,
    /// Whether it is handed over or derived from.
    pub mode: GrantMode,
}

impl CapXfer {
    /// An unused transfer, as a value of the model.
    pub open spec fn none_spec() -> CapXfer {
        CapXfer { src: 0, rights: Rights { bits: 0 }, mode: GrantMode::Move }
    }

    /// An unused transfer.
    pub fn none() -> (x: CapXfer)
        ensures
            x == CapXfer::none_spec(),
    {
        CapXfer { src: 0, rights: Rights::empty(), mode: GrantMode::Move }
    }
}

/// A message. Of the words and the transfers only the first `n_regs` and `n_caps` count.
#[derive(Clone, Copy, PartialEq, Eq, Debug)]
pub struct Message {
    /// The descriptor.
    pub info: MessageInfo,
    /// The data words.
    pub regs: [u64; MSG_REGS],
    /// The transfers.
    pub caps: [CapXfer; MAX_CAPS],
    /// The badge that is stamped on delivery.
    pub badge: u64,
}

/// The smaller of two numbers.
pub open spec fn at_most(a: int, b: int) -> int {
    if a < b {
        a
    } else {
        b
    }
}

impl Message {
    /// The data words that count.
    pub open spec fn words(self) -> Seq<u64> {
        self.regs@.take(at_most(self.info.n_regs as int, MSG_REGS as int))
    }

    /// A message without words or transfers.
    #[must_use]
    pub fn empty(label: u32) -> (m: Message)
        ensures
            m.info == (MessageInfo { label, n_regs: 0, n_caps: 0 }),
            m.regs@ == Seq::new(MSG_REGS as nat, |i: int| 0u64),
            m.caps@ == Seq::new(MAX_CAPS as nat, |i: int| CapXfer::none_spec()),
            m.badge == 0,
    {
        let none = CapXfer::none();
        let m = Message {
            info: MessageInfo { label, n_regs: 0, n_caps: 0 },
            regs: [0; MSG_REGS],
            caps: [none; MAX_CAPS],
            badge: 0,
        };
        assert(m.regs@ =~= Seq::new(MSG_REGS as nat, |i: int| 0u64));
        assert(m.caps@ =~= Seq::new(MAX_CAPS as nat, |i: int| CapXfer::none_spec()));
        m
    }

    /// A message with as many of `words` as fit.
    #[must_use]
    pub fn with_data(label: u32, words: &[u64]) -> (m: Message)
        ensures
            m.info == (MessageInfo {
                label,
                n_regs: at_most(words@.len() as int, MSG_REGS as int) as u8,
                n_caps: 0,
            }),
            m.words() == words@.take(at_most(words@.len() as int, MSG_REGS as int)),
            forall|i: int|
                words@.len() <= i < MSG_REGS ==> #[trigger] m.regs@[i] == 0,
            m.caps@ == Seq::new(MAX_CAPS as nat, |i: int| CapXfer::none_spec()),
            m.badge == 0,
    {
        let n: usize = if words.len() < MSG_REGS {
            words.len()
        } else {
            MSG_REGS
        };
        let mut m = Message::empty(label);
        let mut i: usize = 0;
        while i < n
            invariant
                i <= n <= MSG_REGS,
                n <= words@.len(),
                m.regs@.len() == MSG_REGS,
                m.info == (MessageInfo { label, n_regs: 0, n_caps: 0 }),
                m.caps@ == Seq::new(MAX_CAPS as nat, |i: int| CapXfer::none_spec()),
                m.badge == 0,
                forall|k: int|
                    0 <= k < MSG_REGS ==> #[trigger] m.regs@[k] == (if k < i {
                        words@[k]
                    } else {
                        0
                    }),
            decreases n - i,
        {
            m.regs[i] = words[i];
            i = i + 1;
        }
        m.info.n_regs = n as u8;
        assert(m.words() =~= words@.take(at_most(words@.len() as int, MSG_REGS as int)));
        m
    }

    /// The data words that count, however large the count is.
    #[must_use]
    pub fn data(&self) -> (d: &[u64])
        ensures
            d@ == self.words(),
    {
        let n: usize = if (self.info.n_regs as usize) < MSG_REGS {
            self.info.n_regs as usize
        } else {
            MSG_REGS
        };
        let all: &[u64] = &self.regs;
        &all[0..n]
    }

    /// The transfers that count, however large the count is.
    #[must_use]
    pub fn transfers(&self) -> (t: &[CapXfer])
        ensures
            t@ == self.caps@.take(at_most(self.info.n_caps as int, MAX_CAPS as int)),
    {
        let n: usize = if (self.info.n_caps as usize) < MAX_CAPS {
            self.info.n_caps as usize
        } else {
            MAX_CAPS
        };
        let all: &[CapXfer] = &self.caps;
        &all[0..n]
    }
}

/// A packed descriptor has the number of words in its low byte, the number of transfers in the next,
/// and the label above; unpacking takes them from there.
pub proof fn law_descriptors_are_packed_by_place(mi: MessageInfo, word: u64)
    ensures
        mi.word() % 0x100 == mi.n_regs,
        mi.word() / 0x100 % 0x100 == mi.n_caps,
        mi.word() / 0x1_0000 == mi.label,
        MessageInfo::of_word(word).n_regs == word as int % 0x100,
        MessageInfo::of_word(word).n_caps == word as int / 0x100 % 0x100,
        MessageInfo::of_word(word).label == word as int / 0x1_0000 % 0x1_0000_0000,
{
}

/// A message carries four words and two transfers at most; too many words are reported first.
pub proof fn law_counts_are_refused_for_cause(n_regs: u8, n_caps: u8)
    ensures
        MessageInfo::count_error(n_regs, n_caps) == (if n_regs > 4 {
            Some(MsgError::TooManyRegs)
        } else if n_caps > 2 {
            Some(MsgError::TooManyCaps)
        } else {
            None
        }),
{
}

/// Of the words of a message the first ones count, as many as it says and four at most.
pub proof fn law_words_that_count(m: Message)
    ensures
        m.words().len() == (if m.info.n_regs <= 4 {
            m.info.n_regs as int
        } else {
            4
        }),
        forall|i: int|
            0 <= i < m.info.n_regs && i < 4 ==> #[trigger] m.words()[i] == m.regs@[i],
{
}

} // verus!
