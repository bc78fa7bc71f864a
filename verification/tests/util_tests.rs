use wikit::util::ArgParser;

#[test]
fn test_core_debug() {
}

#[test]
fn test_argparser() {
    let cmd = "a bc def";
    let mut argparser = ArgParser::new(cmd);
    assert_eq!(Some("a".into()), argparser.next());
    assert_eq!(Some("bc".into()), argparser.next());
    assert_eq!(Some("def".into()), argparser.next());

    let cmd = " a bc  def   ghi ";
    let mut argparser = ArgParser::new(cmd);
    assert_eq!(Some("a".into()), argparser.next());
    assert_eq!(Some("bc".into()), argparser.next());
    assert_eq!(Some("def".into()), argparser.next());
    assert_eq!(Some("ghi".into()), argparser.next());

    let cmd = " a bc 'def ghi' 'jkl  mno' 'pqr   st' ' x y z  ' ";
    let mut argparser = ArgParser::new(cmd);
    assert_eq!(Some("a".into()), argparser.next());
    assert_eq!(Some("bc".into()), argparser.next());
    assert_eq!(Some("def ghi".into()), argparser.next());
    assert_eq!(Some("jkl  mno".into()), argparser.next());
    assert_eq!(Some("pqr   st".into()), argparser.next());
    assert_eq!(Some(" x y z  ".into()), argparser.next());
}
