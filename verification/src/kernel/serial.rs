//! The serial console.

use vstd::prelude::*;

verus! {

/// The serial console: line ends are sent as carriage return and line feed.
pub struct Serial;

/// The bytes that are sent for `text`: each line feed comes after a carriage return.
pub open spec fn sent(text: Seq<u8>) -> Seq<u8>
    decreases text.len(),
{
    if text.len() == 0 {
        Seq::empty()
    } else if text.last() == 10 {
        sent(text.drop_last()).push(13).push(10)
    } else {
        sent(text.drop_last()).push(text.last())
    }
}

impl Serial {
    /// The bytes to send for `text`.
    pub fn encode(&self, text: &[u8]) -> (out: Vec<u8>)
        ensures
            out@ == sent(text@),
    {
        let mut out: Vec<u8> = Vec::new();
        let n: usize = text.len();
        let mut i: usize = 0;
        assert(text@.take(0) =~= Seq::empty());
        while i < n
            invariant
                i <= n,
                n == text@.len(),
                out@ == sent(text@.take(i as int)),
            decreases n - i,
        {
            let b: u8 = text[i];
            assert(text@.take(i + 1).drop_last() =~= text@.take(i as int));
            if b == 10 {
                out.push(13);
            }
            out.push(b);
            i = i + 1;
        }
        assert(text@.take(n as int) =~= text@);
        out
    }
}

/// How often a byte is offered to a device that is not ready before it is dropped.
pub const TX_SPIN_CAP: u32 = 1_000_000;

/// What to do with a byte for the device.
#[derive(Clone, Copy, PartialEq, Eq, Structural, Debug)]
pub enum TxStep {
    /// Send it.
    Send,
    /// Ask again.
    Wait,
    /// Drop it.
    Drop,
}

/// What to do with a byte after `spins` times of waiting: a device that is never ready does not hold
/// the kernel up.
pub fn tx_step(ready: bool, spins: u32) -> (s: TxStep)
    ensures
        s == (if ready {
            TxStep::Send
        } else if spins + 1 >= TX_SPIN_CAP {
            TxStep::Drop
        } else {
            TxStep::Wait
        }),
{
    if ready {
        TxStep::Send
    } else if spins >= TX_SPIN_CAP - 1 {
        TxStep::Drop
    } else {
        TxStep::Wait
    }
}


/// The number of line feeds.
pub open spec fn line_feeds(text: Seq<u8>) -> int
    decreases text.len(),
{
    if text.len() == 0 {
        0
    } else if text[0] == 10 {
        1 + line_feeds(text.drop_first())
    } else {
        line_feeds(text.drop_first())
    }
}

/// **Law:** what is sent for two texts is what is sent for one after the other. A text without line
/// feeds is sent as it is, and a line feed as a carriage return and a line feed.
pub proof fn law_text_is_sent_piece_by_piece(a: Seq<u8>, b: Seq<u8>)
    ensures
        sent(a + b) == sent(a) + sent(b),
        line_feeds(a) == 0 ==> sent(a) == a,
        sent(seq![10u8]) == seq![13u8, 10u8],
    decreases a.len() + b.len(),
{
    reveal_with_fuel(sent, 2);
    assert(seq![10u8].drop_last() =~= Seq::empty());
    assert(sent(seq![10u8]) =~= seq![13u8, 10u8]);
    if b.len() > 0 {
        assert((a + b).drop_last() =~= a + b.drop_last());
        law_text_is_sent_piece_by_piece(a, b.drop_last());
        assert(sent(a + b) =~= sent(a) + sent(b));
    } else {
        assert(a + b =~= a);
        assert(sent(a) + sent(b) =~= sent(a));
        if a.len() > 0 {
            law_text_is_sent_piece_by_piece(a.drop_last(), b);
            if line_feeds(a) == 0 {
                lemma_no_line_feeds(a);
                lemma_line_feeds(a.drop_last());
                assert(sent(a) =~= a);
            }
        }
    }
}

proof fn lemma_no_line_feeds(a: Seq<u8>)
    ensures
        line_feeds(a) >= 0,
        line_feeds(a) == 0 ==> forall|i: int| 0 <= i < a.len() ==> #[trigger] a[i] != 10,
    decreases a.len(),
{
    if a.len() > 0 {
        lemma_no_line_feeds(a.drop_first());
        if line_feeds(a) == 0 {
            assert forall|i: int| 0 <= i < a.len() implies #[trigger] a[i] != 10 by {
                if i > 0 {
                    assert(a.drop_first()[i - 1] == a[i]);
                }
            }
        }
    }
}

proof fn lemma_line_feeds(a: Seq<u8>)
    ensures
        (forall|i: int| 0 <= i < a.len() ==> #[trigger] a[i] != 10) ==> line_feeds(a) == 0,
    decreases a.len(),
{
    if a.len() > 0 {
        lemma_line_feeds(a.drop_first());
        if forall|i: int| 0 <= i < a.len() ==> #[trigger] a[i] != 10 {
            assert(a[0] != 10);
            assert forall|i: int| 0 <= i < a.drop_first().len() implies #[trigger] a.drop_first()[i]
                != 10 by {
                assert(a.drop_first()[i] == a[i + 1]);
            }
        }
    }
}

} // verus!
