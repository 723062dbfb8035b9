use blkdb::telemetry::CsvVisitor;
use blkdb::transaction::TxKind;

#[test]
fn tx_kind_bytes() {
    assert_eq!(TxKind::Normal.to_byte(), 0x00);
    assert_eq!(TxKind::Faucet.to_byte(), 0xff);
    assert_eq!(TxKind::from_byte(0x51), Some(TxKind::AuctionBid));
    assert_eq!(TxKind::from_byte(0x01), None);
}

#[test]
fn csv_visitor_keeps_metric_fields() {
    let mut v = CsvVisitor::new();
    v.record_str("metric_name", "latency");
    v.record_str("other", "x");
    v.record_str("value", "12");
    assert_eq!(v.values, vec!["latency".to_string(), "12".to_string()]);
}
