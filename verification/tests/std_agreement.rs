use kalkulacka_prumeru::files::json_stem;
use kalkulacka_prumeru::text::{float_syntax, white_space};
use std::path::Path;

/// Every text of length up to `n` over `alphabet`.
fn all_texts(alphabet: &[char], n: usize) -> Vec<String> {
    let mut out = vec![String::new()];
    let mut last = vec![String::new()];
    for _ in 0..n {
        let mut next = Vec::new();
        for t in &last {
            for c in alphabet {
                let mut u = t.clone();
                u.push(*c);
                next.push(u);
            }
        }
        out.extend(next.iter().cloned());
        last = next;
    }
    out
}

fn std_json_stem(file_name: &str) -> Option<String> {
    let p = Path::new(file_name);
    if p.extension()? == "json" {
        Some(p.file_stem()?.to_string_lossy().to_string())
    } else {
        None
    }
}

#[test]
fn white_space_agrees_with_char_is_whitespace() {
    for c in (0u32..=0x10FFFF).filter_map(char::from_u32) {
        assert_eq!(white_space(c), c.is_whitespace(), "{:?}", c);
    }
}

#[test]
fn float_syntax_agrees_with_parse_on_samples() {
    let samples = [
        "0", "1", "0.6", "2.50", "-3", "+4.5", ".5", "5.", ".", "-.", "1e5", "1E-5", "1e+5", "1e",
        "e5", "1.5e3", "1.e3", ".5e3", "inf", "-inf", "+Infinity", "INF", "infinity", "NaN", "nan",
        "-nan", "infin", "", " 1", "1 ", "1,5", "0x10", "1_000", "++1", "1.2.3", "١", "1e1.5",
    ];
    for s in samples {
        let cs: Vec<char> = s.chars().collect();
        assert_eq!(float_syntax(&cs), s.parse::<f64>().is_ok(), "{:?}", s);
    }
}

#[test]
fn float_syntax_agrees_with_parse_on_short_texts() {
    let alphabet = ['0', '9', '.', 'e', 'E', '+', '-', 'i', 'n', 'f', 'a', ' ', 'x'];
    for s in all_texts(&alphabet, 4) {
        let cs: Vec<char> = s.chars().collect();
        assert_eq!(float_syntax(&cs), s.parse::<f64>().is_ok(), "{:?}", s);
    }
}

#[test]
fn json_stem_agrees_with_path_on_samples() {
    let samples = [
        "math.json", "Math.JSON", "a.b.json", ".hidden.json", ".json", "json", "..json", "a..json",
        "grades_export.csv", "math.json.bak", "math.", ".", "..", "čeština.json", "a json", "a.jso",
        "a.jsonx", "",
    ];
    for s in samples {
        assert_eq!(json_stem(s), std_json_stem(s), "{:?}", s);
    }
}

#[test]
fn json_stem_agrees_with_path_on_short_names() {
    let alphabet = ['a', '.', 'j', 's', 'o', 'n'];
    for s in all_texts(&alphabet, 6) {
        assert_eq!(json_stem(&s), std_json_stem(&s), "{:?}", s);
    }
}
