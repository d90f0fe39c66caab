use lezeh::bill::BillCli;

#[test]
fn bills_are_tab_separated_and_padded() {
    let content = "01/02 COFFEE SHOP 35,000.00\n02/02 REFUND 10.50 CR\n03/02 BOOK 1,250.00";
    assert_eq!(
        BillCli::cc_beautify_content(content),
        "01/02\tCOFFEE\tSHOP\t35000\n02/02\tREFUND\t-\t1050\n03/02\tBOOK\t-\t1250"
    );
}

#[test]
fn a_single_line_bill() {
    assert_eq!(BillCli::cc_beautify_content("x 1.00"), "x\t1");
    assert_eq!(BillCli::cc_beautify_content(""), "");
}
