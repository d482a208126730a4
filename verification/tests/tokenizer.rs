use sitegen::tokenizer::{find_katex, Block};

fn reassemble(blocks: &[Block]) -> String {
    let mut out = String::new();
    for b in blocks {
        match b {
            Block::Plain(t) => out.push_str(t),
            Block::InlineMath(t) => {
                out.push('$');
                out.push_str(t);
                out.push('$');
            }
            Block::BlockMath(t) => {
                out.push_str("$$");
                out.push_str(t);
                out.push_str("$$");
            }
        }
    }
    out
}

#[test]
fn finds_inline_math() {
    let actual = find_katex("foo $\\frac{1}{2}$");
    assert_eq!(
        actual,
        vec![
            Block::Plain("foo ".into()),
            Block::InlineMath("\\frac{1}{2}".into())
        ]
    );
}

#[test]
fn unterminated_inline_degrades_to_plain() {
    let actual = find_katex("foo $\\frac{1}{");
    assert_eq!(actual, vec![Block::Plain("foo $\\frac{1}{".into())]);
}

#[test]
fn unterminated_block_degrades_to_plain() {
    let actual = find_katex("foo $$\\frac{1}{");
    assert_eq!(actual, vec![Block::Plain("foo $$\\frac{1}{".into())]);
}

#[test]
fn finds_block_math() {
    let actual = find_katex("foo $$\\frac{1}{2}$$ foo");
    assert_eq!(
        actual,
        vec![
            Block::Plain("foo ".into()),
            Block::BlockMath("\\frac{1}{2}".into()),
            Block::Plain(" foo".into())
        ]
    );
}

#[test]
fn escaped_double_dollar_stays_plain() {
    let actual = find_katex("foo \\$$\\frac{1}{");
    assert_eq!(actual, vec![Block::Plain("foo $$\\frac{1}{".into())]);
}

#[test]
fn lone_dollar_without_close_stays_plain() {
    let actual = find_katex("i got $10 in my bank account");
    assert_eq!(
        actual,
        vec![Block::Plain("i got $10 in my bank account".into())]
    );
}

#[test]
fn escapes_inside_and_outside_spans() {
    let actual = find_katex("i got \\$10 in my bank account and $ \\$20 $ in my pocket");
    assert_eq!(
        actual,
        vec![
            Block::Plain("i got $10 in my bank account and ".into()),
            Block::InlineMath(" \\$20 ".into()),
            Block::Plain(" in my pocket".into()),
        ]
    );
}

#[test]
fn dollar_inside_block_math() {
    let actual = find_katex("$$ $ $$");
    assert_eq!(actual, vec![Block::BlockMath(" $ ".into())]);
}

#[test]
fn consecutive_spans_with_empty_content() {
    let actual = find_katex("$ $$$$$");
    assert_eq!(
        actual,
        vec![Block::InlineMath(" ".into()), Block::BlockMath("".into())]
    );
}

#[test]
fn trailing_dollars_stay_plain() {
    let actual = find_katex("$ $$$");
    assert_eq!(
        actual,
        vec![Block::InlineMath(" ".into()), Block::Plain("$$".into())]
    );
}

const MULTIPLE_KATEX_STR: &str = r#"Let the third-order Taylor series approximation of $T_1(t)$ be the cubic
function $g(t)=at^3+bt^2+ct+d$. The blue function on the graph is the Taylor
series approximation of it. I decided that the simulator would have 16
increments, so the actual function used is $g(t)$ rescaled to $[0,16]$ centered
at 8:"#;

#[test]
fn splits_a_paragraph_with_many_spans() {
    let actual = find_katex(MULTIPLE_KATEX_STR);
    assert_eq!(
        actual,
        vec![
            Block::Plain("Let the third-order Taylor series approximation of ".into()),
            Block::InlineMath("T_1(t)".into()),
            Block::Plain(" be the cubic\nfunction ".into()),
            Block::InlineMath("g(t)=at^3+bt^2+ct+d".into()),
            Block::Plain(
                ". The blue function on the graph is the Taylor\nseries approximation \
                of it. I decided that the simulator would have 16\nincrements, so the actual \
                function used is "
                    .into()
            ),
            Block::InlineMath("g(t)".into()),
            Block::Plain(" rescaled to ".into()),
            Block::InlineMath("[0,16]".into()),
            Block::Plain(" centered\nat 8:".into())
        ]
    );
}

#[test]
fn round_trip_without_escapes() {
    for input in [
        "foo $\\frac{1}{2}$",
        "foo $$\\frac{1}{2}$$ foo",
        "$$ $ $$",
        "$ $$$$$",
        "$ $$$",
        "plain text with no math",
        "$",
        "",
        MULTIPLE_KATEX_STR,
    ] {
        let blocks = find_katex(input);
        assert_eq!(reassemble(&blocks), input, "round trip failed for {input:?}");
    }
}

#[test]
fn adjacent_plains_are_merged() {
    for input in ["a$b", "x $ y", "$$", "a\\$b c"] {
        let blocks = find_katex(input);
        for w in blocks.windows(2) {
            assert!(
                !(matches!(w[0], Block::Plain(_)) && matches!(w[1], Block::Plain(_))),
                "two adjacent plain segments in {input:?}"
            );
        }
        for b in &blocks {
            if let Block::Plain(t) = b {
                assert!(!t.is_empty(), "empty plain segment in {input:?}");
            }
        }
    }
}
