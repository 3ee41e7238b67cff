use vstd::prelude::*;

use crate::codec::{amount_to_bytes, cbor_bytes, cbor_head, minimal_be, push_cbor_bytes, push_cbor_head};
use crate::identity::{Identity, Symbol};
use crate::tid::TransactionId;

verus! {

/// Token amounts.
pub type TokenAmount = u128;

/// What a transaction did.
pub enum TransactionInfo {
    Send { from: Identity, to: Identity, symbol: Symbol, amount: TokenAmount },
    Mint { account: Identity, symbol: Symbol, amount: TokenAmount },
    Burn { account: Identity, symbol: Symbol, amount: TokenAmount },
}

/// A record of the transaction log.
pub struct Transaction {
    pub id: TransactionId,
    /// Seconds since the Unix epoch.
    pub time: u64,
    pub content: TransactionInfo,
}

/// The content of a record in CBOR: an array of the kind (0 send, 1 mint,
/// 2 burn), the identities involved, the symbol and the amount (tag 2,
/// big-endian bytes).
pub open spec fn content_cbor(c: TransactionInfo) -> Seq<u8> {
    match c {
        TransactionInfo::Send { from, to, symbol, amount } => cbor_head(4, 5) + cbor_head(0, 0)
            + cbor_bytes(from@) + cbor_bytes(to@) + cbor_bytes(symbol@) + cbor_head(6, 2) + cbor_bytes(
            minimal_be(amount as nat),
        ),
        TransactionInfo::Mint { account, symbol, amount } => cbor_head(4, 4) + cbor_head(0, 1)
            + cbor_bytes(account@) + cbor_bytes(symbol@) + cbor_head(6, 2) + cbor_bytes(
            minimal_be(amount as nat),
        ),
        TransactionInfo::Burn { account, symbol, amount } => cbor_head(4, 4) + cbor_head(0, 2)
            + cbor_bytes(account@) + cbor_bytes(symbol@) + cbor_head(6, 2) + cbor_bytes(
            minimal_be(amount as nat),
        ),
    }
}

/// The start of a stored record: a CBOR map with field 0 the id bytes,
/// field 1 the time (tag 1, seconds) and field 2 the content.
pub open spec fn record_head_cbor(id: Seq<u8>, time: u64) -> Seq<u8> {
    cbor_head(5, 3) + cbor_head(0, 0) + cbor_bytes(id) + cbor_head(0, 1) + cbor_head(6, 1)
        + cbor_head(0, time) + cbor_head(0, 2)
}

/// The stored form of a transfer record.
pub open spec fn send_record_cbor(
    id: Seq<u8>,
    time: u64,
    from: Seq<u8>,
    to: Seq<u8>,
    symbol: Seq<u8>,
    amount: nat,
) -> Seq<u8> {
    record_head_cbor(id, time) + cbor_head(4, 5) + cbor_head(0, 0) + cbor_bytes(from) + cbor_bytes(to)
        + cbor_bytes(symbol) + cbor_head(6, 2) + cbor_bytes(minimal_be(amount))
}

/// The stored form of a mint (`kind` 1) or burn (`kind` 2) record.
pub open spec fn supply_record_cbor(
    kind: u64,
    id: Seq<u8>,
    time: u64,
    account: Seq<u8>,
    symbol: Seq<u8>,
    amount: nat,
) -> Seq<u8> {
    record_head_cbor(id, time) + cbor_head(4, 4) + cbor_head(0, kind) + cbor_bytes(account)
        + cbor_bytes(symbol) + cbor_head(6, 2) + cbor_bytes(minimal_be(amount))
}

pub open spec fn transaction_cbor(t: Transaction) -> Seq<u8> {
    record_head_cbor(t.id.0@, t.time) + content_cbor(t.content)
}

/// Appends the CBOR form of a record's content to `out`.
pub fn push_content(out: &mut Vec<u8>, c: &TransactionInfo)
    ensures
        final(out)@ == old(out)@ + content_cbor(*c),
{
    let ghost start = out@;
    match c {
        TransactionInfo::Send { from, to, symbol, amount } => {
            push_cbor_head(out, 4, 5);
            push_cbor_head(out, 0, 0);
            push_cbor_bytes(out, &from.to_vec());
            push_cbor_bytes(out, &to.to_vec());
            push_cbor_bytes(out, &symbol.to_vec());
            push_cbor_head(out, 6, 2);
            push_cbor_bytes(out, &amount_to_bytes(*amount));
        },
        TransactionInfo::Mint { account, symbol, amount } => {
            push_cbor_head(out, 4, 4);
            push_cbor_head(out, 0, 1);
            push_cbor_bytes(out, &account.to_vec());
            push_cbor_bytes(out, &symbol.to_vec());
            push_cbor_head(out, 6, 2);
            push_cbor_bytes(out, &amount_to_bytes(*amount));
        },
        TransactionInfo::Burn { account, symbol, amount } => {
            push_cbor_head(out, 4, 4);
            push_cbor_head(out, 0, 2);
            push_cbor_bytes(out, &account.to_vec());
            push_cbor_bytes(out, &symbol.to_vec());
            push_cbor_head(out, 6, 2);
            push_cbor_bytes(out, &amount_to_bytes(*amount));
        },
    }
    proof {
        assert(out@ =~= start + content_cbor(*c));
    }
}

/// Encodes a transaction record for the log.
pub fn encode_transaction(t: &Transaction) -> (r: Vec<u8>)
    ensures
        r@ == transaction_cbor(*t),
{
    let mut out: Vec<u8> = Vec::new();
    push_cbor_head(&mut out, 5, 3);
    push_cbor_head(&mut out, 0, 0);
    push_cbor_bytes(&mut out, &t.id.0);
    push_cbor_head(&mut out, 0, 1);
    push_cbor_head(&mut out, 6, 1);
    push_cbor_head(&mut out, 0, t.time);
    push_cbor_head(&mut out, 0, 2);
    let ghost head = out@;
    push_content(&mut out, &t.content);
    proof {
        assert(head =~= record_head_cbor(t.id.0@, t.time));
    }
    out
}

} // verus!
