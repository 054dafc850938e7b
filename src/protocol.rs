use vstd::prelude::*;
use vstd::string::StringExecFns;

verus! {

use crate::registry::ClientId;

/// The character of a decimal digit.
pub open spec fn digit_char(d: nat) -> char
    recommends
        d < 10,
{
    "0123456789"@[d as int]
}

/// `n` in decimal, without leading zeros.
pub open spec fn decimal(n: nat) -> Seq<char>
    decreases n,
{
    if n < 10 {
        seq![digit_char(n)]
    } else {
        decimal(n / 10).push(digit_char(n % 10))
    }
}

/// Sent to a client as soon as it is connected.
pub open spec fn login_line(id: nat) -> Seq<char> {
    "LOGIN:"@ + decimal(id) + "\n"@
}

/// Sent to a client for each line it sends.
pub open spec fn ack_line() -> Seq<char> {
    "ACK:MESSAGE\n"@
}

/// Sent to every other client for each line a client sends.
pub open spec fn message_line(sender: nat, text: Seq<char>) -> Seq<char> {
    "MESSAGE:"@ + decimal(sender) + " "@ + text + "\n"@
}

/// Appends `n` in decimal to `s`.
fn push_decimal(s: &mut String, n: usize)
    ensures
        final(s)@ == old(s)@ + decimal(n as nat),
    decreases n,
{
    if n >= 10 {
        push_decimal(s, n / 10);
    }
    let d: usize = n % 10;
    let digits = "0123456789";
    proof {
        reveal_strlit("0123456789");
    }
    s.append(digits.substring_ascii(d, d + 1));
    proof {
        assert(digits@.subrange(d as int, d + 1) =~= seq![digit_char(d as nat)]);
        if n < 10 {
            assert(d == n);
        }
    }
}

/// The login acknowledgement for the connection `id`.
pub fn login_message(id: ClientId) -> (r: String)
    ensures
        r@ == login_line(id as nat),
{
    let mut s = String::from_str("LOGIN:");
    push_decimal(&mut s, id);
    s.append("\n");
    s
}

/// The acknowledgement of one received line.
pub fn ack_message() -> (r: String)
    ensures
        r@ == ack_line(),
{
    String::from_str("ACK:MESSAGE\n")
}

/// The line that delivers `text`, sent by `sender`, to another client.
pub fn broadcast_message(sender: ClientId, text: &str) -> (r: String)
    ensures
        r@ == message_line(sender as nat, text@),
{
    let mut s = String::from_str("MESSAGE:");
    push_decimal(&mut s, sender);
    s.append(" ");
    s.append(text);
    s.append("\n");
    s
}

/// A delivered line never reads as an acknowledgement, so the only
/// acknowledgements a client sees are those of its own lines.
pub proof fn lemma_message_is_not_ack(sender: nat, text: Seq<char>)
    ensures
        message_line(sender, text) != ack_line(),
{
    reveal_strlit("MESSAGE:");
    reveal_strlit("ACK:MESSAGE\n");
    assert(message_line(sender, text)[0] == 'M');
    assert(ack_line()[0] == 'A');
}

} // verus!
