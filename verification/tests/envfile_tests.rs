use kataribe::envfile::{lines, upsert_env};

fn ups(xs: &[(&str, &str)]) -> Vec<(String, String)> {
    xs.iter().map(|(k, v)| (k.to_string(), v.to_string())).collect()
}

#[test]
fn lines_split_like_str_lines() {
    for text in ["", "a", "a\n", "\n", "a\r\nb", "a\n\nb\n", "x\r", "\r\n\r\n"] {
        let expected: Vec<String> = text.lines().map(|l| l.to_string()).collect();
        assert_eq!(lines(text), expected, "{text:?}");
    }
}

#[test]
fn upsert_replaces_values_in_place_and_keeps_everything_else() {
    let existing = "# LLM 設定\nLLM_BASE_URL=https://old\n  LLM_MODEL = old-model\nOTHER=1\n#LLM_API_KEY=commented\n";
    let out = upsert_env(existing, &ups(&[("LLM_MODEL", "gpt-4o-mini"), ("LLM_API_KEY", "k"), ("LLM_BASE_URL", "https://new")]));
    assert_eq!(
        out,
        "# LLM 設定\nLLM_BASE_URL=https://new\nLLM_MODEL=gpt-4o-mini\nOTHER=1\n#LLM_API_KEY=commented\nLLM_API_KEY=k\n"
    );
}

#[test]
fn upsert_into_an_empty_file_appends_in_order() {
    assert_eq!(upsert_env("", &ups(&[("A", "1"), ("B", "2")])), "A=1\nB=2\n");
    assert_eq!(upsert_env("", &[]), "\n");
    assert_eq!(upsert_env("A=0", &ups(&[("A", "1"), ("A", "2")])), "A=1\n", "最初の更新が勝ち、追記はしない");
}

#[test]
fn upsert_keeps_lines_without_an_equals_sign() {
    assert_eq!(upsert_env("export\nA\r\nB=x", &ups(&[("B", "y")])), "export\nA\nB=y\n");
}
