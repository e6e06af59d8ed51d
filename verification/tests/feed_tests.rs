use symplectic_test::xrpl_feed::{
    decode_stream_message, drops_of_amount, parse_u64_decimal, LedgerClosedStreamMsg, TxInner, TxStreamMsg,
    XrplStreamEvent,
};

#[test]
fn decimal_parsing_follows_str_parse() {
    let cases = [
        "123", "+7", "", "+", "-", "-5", "007", "12a", " 1", "18446744073709551615", "18446744073709551616",
        "99999999999999999999999", "+-1", "٣", "0",
    ];
    for c in cases {
        assert_eq!(parse_u64_decimal(c), c.parse::<u64>().ok(), "case {:?}", c);
    }
    assert_eq!(parse_u64_decimal("18446744073709551615"), Some(u64::MAX));
    assert_eq!(parse_u64_decimal("+7"), Some(7));
    assert_eq!(parse_u64_decimal("-5"), None);
}

#[test]
fn drops_default_when_amount_unreadable() {
    assert_eq!(drops_of_amount(&Some("2500000".to_string())), 2_500_000);
    assert_eq!(drops_of_amount(&Some("1.5".to_string())), 1000);
    assert_eq!(drops_of_amount(&None), 1000);
}

fn ledger(msg_type: Option<&str>, idx: Option<u64>, count: Option<u32>, res: Option<u64>) -> LedgerClosedStreamMsg {
    LedgerClosedStreamMsg { msg_type: msg_type.map(|s| s.to_string()), ledger_index: idx, txn_count: count, close_res: res }
}

fn payment(tx_type: &str, account: Option<&str>, amount: Option<&str>) -> TxStreamMsg {
    TxStreamMsg {
        transaction: Some(TxInner {
            tx_type: Some(tx_type.to_string()),
            account: account.map(|s| s.to_string()),
            amount: amount.map(|s| s.to_string()),
        }),
    }
}

#[test]
fn ledger_close_is_decoded_with_defaults() {
    match decode_stream_message(Some(ledger(Some("ledgerClosed"), Some(88), None, None)), None) {
        Some(XrplStreamEvent::LedgerClosed { ledger_index, close_time_resolution, tx_count }) => {
            assert_eq!((ledger_index, close_time_resolution, tx_count), (88, 4, 0));
        }
        other => panic!("unexpected {:?}", other),
    }
    match decode_stream_message(Some(ledger(Some("ledgerClosed"), Some(9), Some(31), Some(10))), None) {
        Some(XrplStreamEvent::LedgerClosed { ledger_index, close_time_resolution, tx_count }) => {
            assert_eq!((ledger_index, close_time_resolution, tx_count), (9, 10, 31));
        }
        other => panic!("unexpected {:?}", other),
    }
}

#[test]
fn payment_is_decoded() {
    let ev = decode_stream_message(
        Some(ledger(Some("transaction"), None, None, None)),
        Some(payment("Payment", Some("rAlice"), Some("42"))),
    );
    match ev {
        Some(XrplStreamEvent::Tx { drops, account }) => {
            assert_eq!(drops, 42);
            assert_eq!(account, "rAlice");
        }
        other => panic!("unexpected {:?}", other),
    }
    match decode_stream_message(None, Some(payment("Payment", None, None))) {
        Some(XrplStreamEvent::Tx { drops, account }) => {
            assert_eq!(drops, 1000);
            assert_eq!(account, "unknown");
        }
        other => panic!("unexpected {:?}", other),
    }
}

#[test]
fn ledger_close_without_index_falls_through_to_the_transaction() {
    let ev = decode_stream_message(
        Some(ledger(Some("ledgerClosed"), None, None, None)),
        Some(payment("Payment", Some("rBob"), Some("5"))),
    );
    assert!(matches!(ev, Some(XrplStreamEvent::Tx { drops: 5, .. })));
}

#[test]
fn other_messages_give_no_event() {
    assert!(decode_stream_message(None, None).is_none());
    assert!(decode_stream_message(Some(ledger(Some("ledgerclosed"), Some(1), None, None)), None).is_none());
    assert!(decode_stream_message(None, Some(payment("OfferCreate", Some("rC"), Some("5")))).is_none());
    assert!(decode_stream_message(None, Some(TxStreamMsg { transaction: None })).is_none());
}
