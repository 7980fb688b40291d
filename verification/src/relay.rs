//! The relay protocol: the commands clients send as plain text and the
//! updates they receive.  Parsing is verified here; sockets and channels
//! are the callers' concern.

use vstd::prelude::*;

use crate::serializer::OrderBookDto;

verus! {

/// A command from a relay client.
#[derive(Debug)]
pub enum ClientMessage {
    SubscribeOrderBook(String),
    UnsubscribeOrderBook(String),
    RequestOrderBookSnapshot(String),
}

/// An update pushed to a relay client.
#[derive(Debug)]
pub enum ClientUpdate {
    OrderBookSnapshot { symbol: String, data: OrderBookDto },
    OrderBookUpdate { symbol: String, data: OrderBookDto },
}

/// `s` starts with `p`.
pub open spec fn spec_has_prefix(s: Seq<char>, p: Seq<char>) -> bool {
    s.len() >= p.len() && s.subrange(0, p.len() as int) == p
}

/// Whether `s` starts with `p`.
pub fn str_has_prefix(s: &str, p: &str) -> (r: bool)
    ensures
        r == spec_has_prefix(s@, p@),
{
    let ls = s.unicode_len();
    let lp = p.unicode_len();
    if ls < lp {
        return false;
    }
    let mut i: usize = 0;
    while i < lp
        invariant
            0 <= i <= lp,
            lp == p@.len(),
            ls == s@.len(),
            ls >= lp,
            forall|j: int| 0 <= j < i ==> s@[j] == p@[j],
        decreases lp - i,
    {
        if s.get_char(i) != p.get_char(i) {
            proof {
                assert(s@.subrange(0, p@.len() as int)[i as int] == s@[i as int]);
            }
            return false;
        }
        i = i + 1;
    }
    proof {
        assert(s@.subrange(0, p@.len() as int) =~= p@);
    }
    true
}

/// The text after the prefix, as an owned string.
fn suffix_after(s: &str, prefix_len: usize) -> (r: String)
    requires
        prefix_len <= s@.len(),
    ensures
        r@ == s@.skip(prefix_len as int),
{
    let ls = s.unicode_len();
    let sub = s.substring_char(prefix_len, ls);
    proof {
        assert(s@.subrange(prefix_len as int, s@.len() as int) =~= s@.skip(prefix_len as int));
    }
    String::from_str(sub)
}

/// Parse one relay client command.
///
/// Commands are `subscribe:`, `unsubscribe:` or `snapshot:`, each followed
/// by the symbol.  Anything else is answered with an error naming the
/// command.
pub fn parse_client_message(message: &str) -> (r: Result<ClientMessage, String>)
    ensures
        spec_has_prefix(message@, "subscribe:"@) ==> (r matches Ok(c) && c matches
            ClientMessage::SubscribeOrderBook(sym) && sym@ == message@.skip("subscribe:"@.len() as int)),
        (!spec_has_prefix(message@, "subscribe:"@) && spec_has_prefix(message@, "unsubscribe:"@))
            ==> (r matches Ok(c) && c matches ClientMessage::UnsubscribeOrderBook(sym) && sym@
            == message@.skip("unsubscribe:"@.len() as int)),
        (!spec_has_prefix(message@, "subscribe:"@) && !spec_has_prefix(message@, "unsubscribe:"@)
            && spec_has_prefix(message@, "snapshot:"@)) ==> (r matches Ok(c) && c matches
            ClientMessage::RequestOrderBookSnapshot(sym) && sym@ == message@.skip(
            "snapshot:"@.len() as int,
        )),
        (!spec_has_prefix(message@, "subscribe:"@) && !spec_has_prefix(message@, "unsubscribe:"@)
            && !spec_has_prefix(message@, "snapshot:"@)) ==> (r matches Err(e) && e@ == "Unknown command: "@
            + message@),
{
    proof {
        reveal_strlit("subscribe:");
        reveal_strlit("unsubscribe:");
        reveal_strlit("snapshot:");
        reveal_strlit("Unknown command: ");
    }
    if str_has_prefix(message, "subscribe:") {
        let p = "subscribe:";
        let symbol = suffix_after(message, p.unicode_len());
        Ok(ClientMessage::SubscribeOrderBook(symbol))
    } else if str_has_prefix(message, "unsubscribe:") {
        let p = "unsubscribe:";
        let symbol = suffix_after(message, p.unicode_len());
        Ok(ClientMessage::UnsubscribeOrderBook(symbol))
    } else if str_has_prefix(message, "snapshot:") {
        let p = "snapshot:";
        let symbol = suffix_after(message, p.unicode_len());
        Ok(ClientMessage::RequestOrderBookSnapshot(symbol))
    } else {
        let mut err = String::from_str("Unknown command: ");
        err.append(message);
        Err(err)
    }
}

} // verus!
