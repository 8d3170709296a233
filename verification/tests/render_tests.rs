use headr::get_args;
use headr::render;
use headr::source_block;

fn sv(args: &[&str]) -> Vec<String> {
    args.iter().map(|s| s.to_string()).collect()
}

#[test]
fn two_sources_with_two_lines_each_get_banners_and_a_blank_line() {
    let cfg = get_args(&sv(&["a.txt", "b.txt", "-n", "2"])).unwrap();
    let contents = vec![Some(b"1\n2\n3\n".to_vec()), Some(b"x\n".to_vec())];
    let out = render(&cfg, &contents);
    assert_eq!(out, b"==> a.txt <==\n1\n2\n\n==> b.txt <==\nx\n".to_vec());
}

#[test]
fn a_single_source_in_byte_mode_gets_no_banner() {
    let cfg = get_args(&sv(&["a.txt", "-c", "5"])).unwrap();
    let contents = vec![Some(b"hello world".to_vec())];
    let out = render(&cfg, &contents);
    assert_eq!(out, b"hello".to_vec());
}

#[test]
fn a_single_source_in_line_mode_gets_no_banner() {
    let cfg = get_args(&sv(&["a.txt"])).unwrap();
    let contents = vec![Some(b"x\ny\n".to_vec())];
    let out = render(&cfg, &contents);
    assert_eq!(out, b"x\ny\n".to_vec());
}

#[test]
fn an_unopenable_source_contributes_nothing_but_keeps_positions() {
    let cfg = get_args(&sv(&["bad.txt", "good.txt", "-n", "1"])).unwrap();
    let contents = vec![None, Some(b"ok\nrest\n".to_vec())];
    let out = render(&cfg, &contents);
    assert_eq!(out, b"\n==> good.txt <==\nok\n".to_vec());
}

#[test]
fn an_unopenable_single_source_yields_empty_output() {
    let cfg = get_args(&sv(&["bad.txt"])).unwrap();
    let contents = vec![None];
    let out = render(&cfg, &contents);
    assert_eq!(out, Vec::<u8>::new());
}

#[test]
fn invalid_utf8_bytes_are_replaced_in_byte_mode() {
    let cfg = get_args(&sv(&["a.bin", "-c", "2"])).unwrap();
    let contents = vec![Some(vec![0xFF, b'a', b'z'])];
    let out = render(&cfg, &contents);
    assert_eq!(out, vec![0xEF, 0xBF, 0xBD, b'a']);
}

#[test]
fn valid_utf8_bytes_pass_through_byte_mode_unchanged() {
    let cfg = get_args(&sv(&["a.txt", "-c", "8"])).unwrap();
    let contents = vec![Some("héllo wörld".as_bytes().to_vec())];
    let out = render(&cfg, &contents);
    assert_eq!(out, "héllo w".as_bytes().to_vec());
}

#[test]
fn the_first_block_of_many_has_no_leading_blank_line() {
    let cfg = get_args(&sv(&["a.txt", "b.txt"])).unwrap();
    let content = b"x\n".to_vec();
    let block = source_block(&cfg, 0, &content);
    assert_eq!(block, b"==> a.txt <==\nx\n".to_vec());
    let block2 = source_block(&cfg, 1, &content);
    assert_eq!(block2, b"\n==> b.txt <==\nx\n".to_vec());
}

#[test]
fn byte_mode_overrides_the_line_count_entirely() {
    let cfg = get_args(&sv(&["a.txt", "-c", "3"])).unwrap();
    let contents = vec![Some(b"1\n2\n3\n4\n".to_vec())];
    let out = render(&cfg, &contents);
    assert_eq!(out, b"1\n2".to_vec());
}
