use tracer::canvas::canvas;
use tracer::canvas::Rgb;
use tracer::ppm::wrap;

fn rgb(red: u8, green: u8, blue: u8) -> Rgb {
    Rgb { red, green, blue }
}

fn ppm_string(c: &tracer::canvas::Canvas<Rgb>) -> String {
    String::from_utf8(c.to_ppm()).unwrap()
}

fn unlines(s: Vec<&str>) -> String {
    s.join("\n")
}

#[test]
fn constructing_the_ppm_header() {
    let ppm = ppm_string(&canvas(5, 3));
    assert_eq!(unlines(ppm.lines().take(3).collect()), "P3\n5 3\n255");
}

#[test]
fn constructing_the_ppm_pixel_data() {
    let mut c = canvas(5, 3);
    c.write_pixel(0, 0, rgb(255, 0, 0));
    c.write_pixel(2, 1, rgb(0, 128, 0));
    c.write_pixel(4, 2, rgb(0, 0, 255));
    let ppm = ppm_string(&c);
    let pixels = unlines(vec![
        "255 0 0 0 0 0 0 0 0 0 0 0 0 0 0",
        "0 0 0 0 0 0 0 128 0 0 0 0 0 0 0",
        "0 0 0 0 0 0 0 0 0 0 0 0 0 0 255",
    ]);
    assert_eq!(unlines(ppm.lines().skip(3).take(3).collect()), pixels);
}

#[test]
fn splitting_long_lines_in_ppm_files() {
    let mut c = canvas(10, 2);
    for x in 0..10 {
        for y in 0..2 {
            c.write_pixel(x, y, rgb(255, 204, 153));
        }
    }
    let ppm = ppm_string(&c);
    let pixels = unlines(vec![
        "255 204 153 255 204 153 255 204 153 255 204 153 255 204 153 255 204",
        "153 255 204 153 255 204 153 255 204 153 255 204 153",
        "255 204 153 255 204 153 255 204 153 255 204 153 255 204 153 255 204",
        "153 255 204 153 255 204 153 255 204 153 255 204 153",
    ]);
    assert_eq!(unlines(ppm.lines().skip(3).take(4).collect()), pixels);
}

#[test]
fn ppm_files_are_terminated_by_a_newline() {
    let mut ppm = ppm_string(&canvas(5, 3));
    assert_eq!(ppm.pop(), Some('\n'));
}

#[test]
fn no_ppm_sample_line_exceeds_seventy_characters() {
    let mut c = canvas(25, 3);
    for x in 0..25 {
        for y in 0..3 {
            c.write_pixel(x, y, rgb(200, 155, 100));
        }
    }
    let ppm = ppm_string(&c);
    assert!(ppm.lines().all(|line| line.len() <= 70));
}

#[test]
fn wrap_packs_words_greedily() {
    let words: Vec<Vec<u8>> = vec![
        b"alpha".to_vec(),
        b"beta".to_vec(),
        b"gamma".to_vec(),
        b"delta".to_vec(),
    ];
    let lines = wrap(&words, 11);
    let lines: Vec<&[u8]> = lines.iter().map(|l| l.as_slice()).collect();
    assert_eq!(lines, vec![&b"alpha beta"[..], &b"gamma delta"[..]]);
}

#[test]
fn wrap_gives_an_oversized_word_its_own_line() {
    let words: Vec<Vec<u8>> = vec![b"hi".to_vec(), b"abcdefghij".to_vec(), b"yo".to_vec()];
    let lines = wrap(&words, 5);
    let lines: Vec<&[u8]> = lines.iter().map(|l| l.as_slice()).collect();
    assert_eq!(lines, vec![&b"hi"[..], &b"abcdefghij"[..], &b"yo"[..]]);
}

#[test]
fn wrap_of_no_words_is_no_lines() {
    let words: Vec<Vec<u8>> = vec![];
    assert_eq!(wrap(&words, 70).len(), 0);
}
