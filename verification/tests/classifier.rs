use fuzzy_matcher::CharRole;
use fuzzy_matcher::CharType;
use fuzzy_matcher::MatrixCell;
use fuzzy_matcher::Movement;
use fuzzy_matcher::ScoreMatrix;

#[test]
fn test_char_type_classification() {
    assert_eq!(CharType::of('\0'), CharType::Empty);
    assert_eq!(CharType::of(' '), CharType::HardSep);
    assert_eq!(CharType::of('/'), CharType::HardSep);
    assert_eq!(CharType::of('\\'), CharType::HardSep);
    assert_eq!(CharType::of('|'), CharType::HardSep);
    assert_eq!(CharType::of('('), CharType::HardSep);
    assert_eq!(CharType::of(')'), CharType::HardSep);
    assert_eq!(CharType::of('['), CharType::HardSep);
    assert_eq!(CharType::of(']'), CharType::HardSep);
    assert_eq!(CharType::of('{'), CharType::HardSep);
    assert_eq!(CharType::of('}'), CharType::HardSep);
    assert_eq!(CharType::of('.'), CharType::SoftSep);
    assert_eq!(CharType::of('!'), CharType::SoftSep);
    assert_eq!(CharType::of('_'), CharType::SoftSep);
    assert_eq!(CharType::of('0'), CharType::Number);
    assert_eq!(CharType::of('9'), CharType::Number);
    assert_eq!(CharType::of('A'), CharType::Upper);
    assert_eq!(CharType::of('Z'), CharType::Upper);
    assert_eq!(CharType::of('a'), CharType::Lower);
    assert_eq!(CharType::of('z'), CharType::Lower);
    // Non-ASCII letters classify as Lower.
    assert_eq!(CharType::of('世'), CharType::Lower);
    assert_eq!(CharType::of('é'), CharType::Lower);
}

#[test]
fn test_char_role_classification() {
    // (f)oo, (F)oo: after the start of the string.
    assert_eq!(CharRole::of('\0', 'f'), CharRole::Head);
    assert_eq!(CharRole::of('\0', 'F'), CharRole::Head);
    // Foo/(B)ar, Foo/(b)ar: after a hard separator.
    assert_eq!(CharRole::of('/', 'B'), CharRole::Head);
    assert_eq!(CharRole::of('/', 'b'), CharRole::Head);
    // Foo.(B)ar: after a soft separator.
    assert_eq!(CharRole::of('.', 'B'), CharRole::Break);
    // Foo(B)ar and 123(B)ar: camel transitions.
    assert_eq!(CharRole::of('o', 'B'), CharRole::Camel);
    assert_eq!(CharRole::of('3', 'B'), CharRole::Camel);
    // F(o)oBar, H(T)TP: everything else is a tail.
    assert_eq!(CharRole::of('F', 'o'), CharRole::Tail);
    assert_eq!(CharRole::of('T', 'T'), CharRole::Tail);
    assert_eq!(
        CharRole::of_type(CharType::Lower, CharType::Upper),
        CharRole::Camel
    );
    assert_eq!(
        CharRole::of_type(CharType::Upper, CharType::Upper),
        CharRole::Tail
    );
}

#[test]
fn test_score_matrix_resize() {
    let cell = MatrixCell::empty();
    assert_eq!(cell.score, -32768);
    assert_eq!(cell.movement, Movement::Skip);
    // A fresh backing buffer grows to rows x cols cells.
    let m = ScoreMatrix::new(Vec::new(), 2, 3);
    assert_eq!(m.into_cells().len(), 6);
    // An oversized buffer is trimmed to the requested shape.
    let big = vec![MatrixCell::empty(); 100];
    let m = ScoreMatrix::new(big, 4, 5);
    assert_eq!(m.into_cells().len(), 20);
}
