use std::path::Path;
use tuner::num::{part, wrap};
use tuner::order::{dedup_indices, lcg_next, shuffle, sort_indices, text_less};
use tuner::text::{
    byte_len, chars_of, contains, decimal_chars, eq_ignore_ascii_case, find, join, parse,
    push_decimal, push_padded, reads_as_real, same_text, space, split, split_nonblank, starts_with, string_range,
    trim,
};

#[test]
fn numbers_are_read() {
    assert_eq!(parse("8083", 65535), Some(8083));
    assert_eq!(parse("+7", 65535), Some(7));
    assert_eq!(parse("65536", 65535), None);
    assert_eq!(parse("80x", 65535), None);
    assert_eq!(parse("", 65535), None);
    assert_eq!(parse("-1", 65535), None);
    assert_eq!(parse("+", 65535), None);
    for s in ["0", "007", "4294967295", "4294967296", "99999999999999999999", " 1", "+0"] {
        assert_eq!(parse(s, u32::MAX as u64), s.parse::<u32>().ok().map(|n| n as u64));
    }
}

#[test]
fn numbers_are_written() {
    for n in [0u64, 7, 10, 99, 100, 12345678901234567890] {
        let mut s = "#".to_string();
        push_decimal(&mut s, n);
        assert_eq!(s, format!("#{n}"));
        assert_eq!(decimal_chars(n).into_iter().collect::<String>(), n.to_string());
    }
    let mut s = String::new();
    push_padded(&mut s, 7, 2);
    push_padded(&mut s, 123, 2);
    assert_eq!(s, "07123");
}

#[test]
fn blanks_are_those_of_unicode() {
    for c in (0..=0x10_ffffu32).filter_map(char::from_u32) {
        assert_eq!(space(c), c.is_whitespace(), "{c:?}");
    }
    for s in ["", "  ", " a b ", "\u{3000}x\t\n", "x\u{200b}"] {
        assert_eq!(trim(s), s.trim());
    }
}

#[test]
fn texts_are_searched() {
    assert!(contains("bitstream", "str"));
    assert!(contains("bitstream", ""));
    assert!(!contains("str", "bitstream"));
    assert_eq!(find(&chars_of("a (b) (c)"), &chars_of(" (")), Some(1));
    assert_eq!(find(&chars_of("abc"), &chars_of("d")), None);
    assert!(starts_with("--crt", "--"));
    assert!(!starts_with("-", "--"));
    assert!(same_text("é", "é"));
    assert!(!same_text("a", "ab"));
    assert!(eq_ignore_ascii_case("Hbo", "hBO"));
    assert!(!eq_ignore_ascii_case("É", "é"));
    assert_eq!(byte_len("aé世😀"), "aé世😀".len());
    assert_eq!(string_range(&chars_of("éab"), 1, 3), "ab");
}

#[test]
fn real_numbers_are_told() {
    let parts = ["", "+", "-", "1", "12", ".", "e", "E", "e5", "e-5", "e+", "inf", "INFINITY", "nan", " ", "x", "_"];
    for a in parts {
        for b in parts {
            for c in parts {
                for d in parts {
                    let s = format!("{a}{b}{c}{d}");
                    assert_eq!(reads_as_real(&s), s.parse::<f64>().is_ok(), "{s}");
                }
            }
        }
    }
}

#[test]
fn texts_are_split_and_joined() {
    for s in ["", ";", "a;b", ";a;;b;", "http://localhost:8083/x"] {
        assert_eq!(split(s, ';'), s.split(';').collect::<Vec<_>>());
        assert_eq!(split(s, ':'), s.split(':').collect::<Vec<_>>());
    }
    assert_eq!(split_nonblank(" C:/a ; ;;D:/b", ';'), ["C:/a", "D:/b"]);
    for dir in ["", "/", "/etc", "/etc/", "/a\\", "C:"] {
        assert_eq!(join(false, dir, "tuner"), Path::new(dir).join("tuner").to_str().unwrap());
    }
    assert_eq!(join(true, "C:\\a", "b"), "C:\\a\\b");
    assert_eq!(join(true, "C:\\", "b"), "C:\\b");
    assert_eq!(join(true, "C:/", "b"), "C:/b");
    assert_eq!(join(true, "C:", "b"), "C:b");
}

#[test]
fn texts_are_ordered_by_characters() {
    let words = ["", "a", "ab", "b", "B", "é", "世", "z"];
    for a in words {
        for b in words {
            assert_eq!(text_less(&chars_of(a), &chars_of(b)), a < b);
        }
    }
}

#[test]
fn sorting_is_stable_on_equal_keys() {
    let keys: Vec<Vec<char>> = ["b", "a", "b", "a", "c"].iter().map(|s| chars_of(s)).collect();
    assert_eq!(sort_indices(&vec![4, 2, 0, 3, 1], &keys), [3, 1, 2, 0, 4]);
    assert_eq!(dedup_indices(&vec![1, 1, 2, 2, 1, 3]), [1, 2, 1, 3]);
}

#[test]
fn shuffles_permute_and_repeat() {
    assert_eq!(lcg_next(1), 6364136223846793005u64.wrapping_add(1442695040888963407));
    let mut v: Vec<usize> = (0..20).collect();
    shuffle(&mut v, 0x5EED_CAB1_E700_0001);
    let mut w: Vec<usize> = (0..20).collect();
    let mut rng: u64 = 0x5EED_CAB1_E700_0001;
    for i in (1..w.len()).rev() {
        rng = rng.wrapping_mul(6364136223846793005).wrapping_add(1442695040888963407);
        w.swap(i, ((rng >> 33) % (i as u64 + 1)) as usize);
    }
    assert_eq!(v, w);
    v.sort();
    assert_eq!(v, (0..20).collect::<Vec<_>>());
}

#[test]
fn parts_are_thousandths_rounded_down() {
    assert_eq!(part(720, 110), 79);
    assert_eq!(part(1280, 940), 1203);
    assert_eq!(part(u32::MAX, 1000), u32::MAX);
    for h in 200..2200u32 {
        assert_eq!(part(h, 110), (h as f32 * 0.11) as u32);
        assert_eq!(part(h, 790), (h as f32 * 0.79) as u32);
    }
    assert_eq!(wrap(-1, 5), 4);
    assert_eq!(wrap(12, 5), 2);
}
