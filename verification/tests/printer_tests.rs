use croner::printer::Printer;

#[test]
fn enabled_printer_passes_lines() {
    let p = Printer::new(true);
    assert!(p.is_enabled());
    assert_eq!(p.line("hello".to_string()), Some("hello".to_string()));
    assert_eq!(p.line(String::new()), Some(String::new()));
}

#[test]
fn disabled_printer_drops_lines() {
    let p = Printer::new(false);
    assert!(!p.is_enabled());
    assert_eq!(p.line("hello".to_string()), None);
}
