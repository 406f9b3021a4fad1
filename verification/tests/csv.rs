use fly_sim_core::csv::{check_rows, read_rows, write_rows, CsvError};
use fly_sim_core::text::{chars_of, push_decimal, split_chars, trim_chars};

fn row(first: &str) -> Vec<String> {
    let mut r = vec![first.to_string()];
    for i in 1..17 {
        r.push(format!("{}.5", i));
    }
    r
}

fn strings(fields: &[Vec<char>]) -> Vec<String> {
    fields.iter().map(|f| f.iter().collect()).collect()
}

#[test]
fn a_written_file_reads_back() {
    let rows = vec![row("0.000000"), row("0.001000"), row("-0.002000")];
    let text = write_rows(&rows);
    assert!(text.starts_with("t,pos_n,pos_e,pos_d,vel_n,vel_e,vel_d,acc_n,acc_e,acc_d,qw,qx,qy,qz,p,q,r\n"));
    assert!(text.ends_with("16.5\n"));
    let back = read_rows(&text);
    assert_eq!(back.len(), 3);
    for (i, r) in back.iter().enumerate() {
        assert_eq!(r.line, i + 2);
        assert_eq!(strings(&r.fields), rows[i]);
    }
}

#[test]
fn comments_headers_and_empty_lines_hold_no_data() {
    let text = "# comment\n\n  t,pos\n 1 , 2 \r\n\t\n3,4";
    let rows = read_rows(text);
    assert_eq!(rows.len(), 2);
    assert_eq!(rows[0].line, 4);
    assert_eq!(strings(&rows[0].fields), vec!["1", "2"]);
    assert_eq!(rows[1].line, 6);
    assert_eq!(strings(&rows[1].fields), vec!["3", "4"]);
}

#[test]
fn a_line_that_starts_with_a_single_t_is_data() {
    let rows = read_rows("t\nt,\n");
    assert_eq!(rows.len(), 1);
    assert_eq!(strings(&rows[0].fields), vec!["t"]);
}

#[test]
fn the_first_faulty_row_decides() {
    let good = row("0").join(",");
    let text = format!("{good}\n1,2\nx\n");
    let rows = read_rows(&text);
    assert_eq!(
        check_rows(&rows, &[None, None, Some(0)]),
        Err(CsvError::TooFewFields { line: 2 })
    );
    assert_eq!(
        check_rows(&rows, &[None, Some(1), Some(0)]),
        Err(CsvError::Unparsable { line: 2, field: 1 })
    );
}

#[test]
fn two_rows_are_the_least() {
    let good = row("0").join(",");
    let one = read_rows(&good);
    assert_eq!(check_rows(&one, &[None]), Err(CsvError::TooFewSamples));
    assert_eq!(check_rows(&[], &[]), Err(CsvError::TooFewSamples));
    let two = read_rows(&format!("{good}\n{good}"));
    assert_eq!(check_rows(&two, &[None, None]), Ok(()));
}

#[test]
fn errors_say_what_is_wrong() {
    assert_eq!(
        CsvError::Unparsable { line: 12, field: 3 }.message("invalid float literal"),
        "第 12 行解析失败: invalid float literal"
    );
    assert_eq!(CsvError::TooFewFields { line: 305 }.message(""), "第 305 行字段不足（需 17 列）");
    assert_eq!(CsvError::TooFewSamples.message("x"), "CSV 至少需要 2 个采样点");
}

#[test]
fn splitting_and_joining_are_inverse() {
    for text in ["", ",", "a", "a,b", ",a,,b,", "no separator"] {
        let parts = strings(&split_chars(&chars_of(text), ','));
        let want: Vec<String> = text.split(',').map(|s| s.to_string()).collect();
        assert_eq!(parts, want);
        assert_eq!(parts.join(","), text);
    }
}

#[test]
fn trimming_agrees_with_the_standard_library() {
    let samples = [
        "",
        "   ",
        " a b ",
        "\u{3000}x\u{2003}",
        "\u{85}\u{a0}y\u{1680}",
        "\u{200b}z",
        "\u{2028}\u{2029}\u{202f}\u{205f}w\u{b}\u{c}",
    ];
    for s in samples {
        let got: String = trim_chars(&chars_of(s)).into_iter().collect();
        assert_eq!(got, s.trim());
    }
    for n in 0..0x11_0000u32 {
        if let Some(c) = char::from_u32(n) {
            assert_eq!(fly_sim_core::text::is_whitespace(c), c.is_whitespace());
        }
    }
}

#[test]
fn numbers_are_written_in_decimal() {
    for n in [0u64, 7, 10, 99, 100, 1234567890, u64::MAX] {
        let mut s = String::from("n=");
        push_decimal(&mut s, n);
        assert_eq!(s, format!("n={}", n));
    }
}
