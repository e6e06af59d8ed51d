//! Decoding of ledger-stream messages into lattice events.
use vstd::prelude::*;

verus! {

/// An event of the ledger stream: a payment of `drops` from `account`, or the
/// close of a ledger.
#[derive(Debug, Clone)]
pub enum XrplStreamEvent {
    Tx { drops: u64, account: String },
    LedgerClosed { ledger_index: u64, close_time_resolution: u64, tx_count: u32 },
}

/// The fields of a stream message read as a ledger message.
#[derive(Debug, Clone)]
pub struct LedgerClosedStreamMsg {
    pub msg_type: Option<String>,
    pub ledger_index: Option<u64>,
    pub txn_count: Option<u32>,
    pub close_res: Option<u64>,
}

/// A stream message read as a transaction message.
#[derive(Debug, Clone)]
pub struct TxStreamMsg {
    pub transaction: Option<TxInner>,
}

/// The transaction of a transaction message. `amount` holds the amount when the
/// message gives it as a string, and is `None` when it is absent or given otherwise.
#[derive(Debug, Clone)]
pub struct TxInner {
    pub tx_type: Option<String>,
    pub account: Option<String>,
    pub amount: Option<String>,
}

/// Drops credited to a payment whose amount cannot be read.
pub const DEFAULT_DROPS: u64 = 1000;

/// Close-time resolution assumed when a ledger message gives none.
pub const DEFAULT_CLOSE_RESOLUTION: u64 = 4;

/// `c` is an ASCII decimal digit.
pub open spec fn is_decimal_digit(c: char) -> bool {
    '0' <= c <= '9'
}

/// The number written by the decimal digits `s`.
pub open spec fn decimal_value(s: Seq<char>) -> int
    decreases s.len(),
{
    if s.len() == 0 {
        0
    } else {
        decimal_value(s.drop_last()) * 10 + (s.last() as int - '0' as int)
    }
}

/// The digits of `s` once an optional leading `+` is removed.
pub open spec fn unsigned_digits(s: Seq<char>) -> Seq<char> {
    if s.len() > 0 && s[0] == '+' {
        s.drop_first()
    } else {
        s
    }
}

/// The `u64` that `s` denotes in decimal notation: an optional `+`, then one or
/// more decimal digits, with a value at most `u64::MAX`; `None` for any other text.
pub open spec fn decimal_u64(s: Seq<char>) -> Option<u64> {
    let digits = unsigned_digits(s);
    if digits.len() > 0 && (forall|i: int| 0 <= i < digits.len() ==> is_decimal_digit(#[trigger] digits[i]))
        && decimal_value(digits) <= u64::MAX {
        Some(decimal_value(digits) as u64)
    } else {
        None
    }
}

proof fn lemma_decimal_value_grows(s: Seq<char>, k: int)
    requires
        0 <= k <= s.len(),
        forall|i: int| 0 <= i < s.len() ==> is_decimal_digit(#[trigger] s[i]),
    ensures
        0 <= decimal_value(s.take(k)) <= decimal_value(s),
    decreases s.len(),
{
    if k == s.len() {
        assert(s.take(k) =~= s);
        if s.len() > 0 {
            lemma_decimal_value_grows(s.drop_last(), s.len() - 1);
            assert(s.drop_last().take(s.len() - 1) =~= s.drop_last());
        }
    } else {
        lemma_decimal_value_grows(s.drop_last(), k);
        assert(s.drop_last().take(k) =~= s.take(k));
        lemma_decimal_value_grows(s.drop_last(), s.len() - 1);
        assert(s.drop_last().take(s.len() - 1) =~= s.drop_last());
    }
}

/// Reads an unsigned decimal number, as `str::parse::<u64>` does.
pub fn parse_u64_decimal(s: &str) -> (r: Option<u64>)
    ensures
        r == decimal_u64(s@),
{
    let n = s.unicode_len();
    let mut start: usize = 0;
    if n > 0 && s.get_char(0) == '+' {
        start = 1;
    }
    let ghost digits = unsigned_digits(s@);
    assert(digits =~= s@.skip(start as int));
    if start == n {
        return None;
    }
    let mut acc: u64 = 0;
    let mut i: usize = start;
    while i < n
        invariant
            n == s@.len(),
            start <= i <= n,
            start < n,
            digits == s@.skip(start as int),
            digits == unsigned_digits(s@),
            forall|j: int| 0 <= j < i - start ==> is_decimal_digit(#[trigger] digits[j]),
            acc == decimal_value(digits.take(i - start)),
        decreases n - i,
    {
        let c = s.get_char(i);
        if !('0' <= c && c <= '9') {
            assert(!is_decimal_digit(digits[i - start]));
            return None;
        }
        let digit = (c as u32 - '0' as u32) as u64;
        proof {
            assert(digits.take(i - start + 1).drop_last() =~= digits.take(i - start));
            assert(digits.take(i - start + 1).last() == c);
        }
        let next = match acc.checked_mul(10) {
            Some(t) => t.checked_add(digit),
            None => None,
        };
        match next {
            Some(v) => {
                acc = v;
            },
            None => {
                proof {
                    let k = i - start + 1;
                    assert(decimal_value(digits.take(k)) > u64::MAX);
                    if forall|j: int| 0 <= j < digits.len() ==> is_decimal_digit(#[trigger] digits[j]) {
                        lemma_decimal_value_grows(digits, k);
                    }
                }
                return None;
            },
        }
        i = i + 1;
    }
    proof {
        assert(digits.take(n - start) =~= digits);
    }
    Some(acc)
}

/// Drops of a payment with amount `amount`: its decimal value, else `DEFAULT_DROPS`.
pub open spec fn payment_drops(amount: Option<String>) -> u64 {
    match amount {
        Some(a) => match decimal_u64(a@) {
            Some(v) => v,
            None => DEFAULT_DROPS,
        },
        None => DEFAULT_DROPS,
    }
}

/// The message announces a closed ledger and gives its index.
pub open spec fn announces_ledger_close(ledger: Option<LedgerClosedStreamMsg>) -> bool {
    match ledger {
        Some(l) => (l.msg_type matches Some(t) && t@ == "ledgerClosed"@) && l.ledger_index is Some,
        None => false,
    }
}

/// The message carries a payment transaction.
pub open spec fn carries_payment(tx: Option<TxStreamMsg>) -> bool {
    match tx {
        Some(t) => match t.transaction {
            Some(inner) => inner.tx_type matches Some(ty) && ty@ == "Payment"@,
            None => false,
        },
        None => false,
    }
}

/// `text` holds exactly the characters of `expected`.
fn text_is(text: &Option<String>, expected: &str) -> (r: bool)
    ensures
        r == (text matches Some(t) && t@ == expected@),
{
    match text {
        Some(t) => {
            let e = expected.to_owned();
            *t == e
        },
        None => false,
    }
}

/// Drops of a payment: the amount read as a decimal number, else `DEFAULT_DROPS`.
pub fn drops_of_amount(amount: &Option<String>) -> (r: u64)
    ensures
        r == payment_drops(*amount),
{
    match amount {
        Some(a) => match parse_u64_decimal(a.as_str()) {
            Some(v) => v,
            None => DEFAULT_DROPS,
        },
        None => DEFAULT_DROPS,
    }
}

/// The event a stream message stands for, from the message read as a ledger
/// message and read as a transaction message (`None` where that reading failed).
/// A closed ledger with an index gives `LedgerClosed`, with the close-time
/// resolution defaulting to `DEFAULT_CLOSE_RESOLUTION` and the transaction count to 0.
/// Otherwise a payment gives `Tx` with its drops and account (`"unknown"` when
/// absent). Anything else gives no event.
pub fn decode_stream_message(ledger: Option<LedgerClosedStreamMsg>, tx: Option<TxStreamMsg>) -> (r: Option<XrplStreamEvent>)
    ensures
        announces_ledger_close(ledger) ==> r == Some(XrplStreamEvent::LedgerClosed {
            ledger_index: ledger->0.ledger_index->0,
            close_time_resolution: match ledger->0.close_res {
                Some(c) => c,
                None => DEFAULT_CLOSE_RESOLUTION,
            },
            tx_count: match ledger->0.txn_count {
                Some(c) => c,
                None => 0u32,
            },
        }),
        !announces_ledger_close(ledger) && carries_payment(tx) ==> (r matches Some(
            XrplStreamEvent::Tx { drops, account },
        ) && drops == payment_drops(tx->0.transaction->0.amount) && account@ == match tx->0.transaction->0.account {
            Some(a) => a@,
            None => "unknown"@,
        }),
        !announces_ledger_close(ledger) && !carries_payment(tx) ==> r is None,
{
    if let Some(l) = ledger {
        if text_is(&l.msg_type, "ledgerClosed") {
            if let Some(idx) = l.ledger_index {
                let close_time_resolution = match l.close_res {
                    Some(c) => c,
                    None => DEFAULT_CLOSE_RESOLUTION,
                };
                let tx_count = match l.txn_count {
                    Some(c) => c,
                    None => 0,
                };
                return Some(XrplStreamEvent::LedgerClosed { ledger_index: idx, close_time_resolution, tx_count });
            }
        }
    }
    if let Some(t) = tx {
        if let Some(inner) = t.transaction {
            if text_is(&inner.tx_type, "Payment") {
                let drops = drops_of_amount(&inner.amount);
                let account = match inner.account {
                    Some(a) => a,
                    None => "unknown".to_owned(),
                };
                return Some(XrplStreamEvent::Tx { drops, account });
            }
        }
    }
    None
}

} // verus!
