use vstd::prelude::*;
use vstd::std_specs::iter::IteratorSpec;

verus! {

broadcast use vstd::string::group_string_axioms;

/// Whether a backslash before `c` makes it a literal character.
pub open spec fn is_reserved_char(c: char) -> bool {
    c == '\\' || c == '`' || c == '*' || c == '_' || c == '{' || c == '}' || c == '[' || c == ']'
        || c == '(' || c == ')' || c == '#' || c == '+' || c == '-' || c == '.' || c == '!' || c
        == '|' || c == '>' || c == '<'
}

/// Whether a backslash before `c` makes it a literal character.
#[verifier::when_used_as_spec(is_reserved_char)]
pub fn reserved_char(c: char) -> (r: bool)
    ensures
        r == is_reserved_char(c),
{
    c == '\\' || c == '`' || c == '*' || c == '_' || c == '{' || c == '}' || c == '[' || c == ']'
        || c == '(' || c == ')' || c == '#' || c == '+' || c == '-' || c == '.' || c == '!' || c
        == '|' || c == '>' || c == '<'
}

/// `text` without the backslashes that stand before a reserved character.
pub open spec fn unescaped(text: Seq<char>) -> Seq<char>
    decreases text.len(),
{
    if text.len() == 0 {
        text
    } else if text[0] == '\\' && text.len() > 1 && is_reserved_char(text[1]) {
        seq![text[1]] + unescaped(text.skip(2))
    } else {
        seq![text[0]] + unescaped(text.skip(1))
    }
}

/// Adds one character to the end of `buffer`: `String::push` of the
/// standard library, which appends the given character and nothing else.
#[verifier::external_body]
pub(crate) fn push_char(buffer: &mut String, c: char)
    ensures
        final(buffer)@ == old(buffer)@.push(c),
{
    buffer.push(c)
}

/// Adds `text` to `buffer`, without the backslashes that stand before a
/// reserved character.
pub fn push_unescaped(buffer: &mut String, text: &str)
    ensures
        final(buffer)@ == old(buffer)@ + unescaped(text@),
{
    let mut chars = text.chars();
    let mut escaping = false;
    let ghost mut rest = text@;
    loop
        invariant
            chars.remaining() =~= (if escaping {
                rest.skip(1)
            } else {
                rest
            }),
            escaping ==> rest.len() > 0 && rest[0] == '\\',
            buffer@ + unescaped(rest) =~= old(buffer)@ + unescaped(text@),
        ensures
            rest.len() == 0,
        decreases (if escaping { rest.len() - 1 } else { rest.len() as int }),
    {
        let ghost before = chars.remaining();
        let ghost written = buffer@;
        match chars.next() {
            Some(c) => {
                assert(chars.remaining() =~= before.skip(1));
                if escaping {
                    assert(rest.skip(1).skip(1) =~= rest.skip(2));
                    if reserved_char(c) {
                        push_char(buffer, c);
                    } else {
                        push_char(buffer, '\\');
                        push_char(buffer, c);
                        assert(unescaped(rest.skip(1)) =~= seq![c] + unescaped(rest.skip(2)));
                    }
                    assert(buffer@ + unescaped(rest.skip(2)) =~= written + unescaped(rest));
                    proof {
                        rest = rest.skip(2);
                    }
                    escaping = false;
                } else if c == '\\' {
                    escaping = true;
                } else {
                    push_char(buffer, c);
                    assert(buffer@ + unescaped(rest.skip(1)) =~= written + unescaped(rest));
                    proof {
                        rest = rest.skip(1);
                    }
                }
            },
            None => {
                if escaping {
                    push_char(buffer, '\\');
                    assert(unescaped(rest.skip(1)) =~= Seq::<char>::empty());
                    assert(buffer@ + unescaped(rest.skip(1)) =~= written + unescaped(rest));
                    proof {
                        rest = rest.skip(1);
                    }
                    escaping = false;
                }
                break ;
            },
        }
    }
    assert(buffer@ + unescaped(rest) =~= buffer@);
}

/// Space, tab, carriage return or line feed.
pub open spec fn is_space_char(c: char) -> bool {
    c == ' ' || c == '\t' || c == '\r' || c == '\n'
}

/// Whether `c` is a space, tab, carriage return or line feed.
#[verifier::when_used_as_spec(is_space_char)]
pub fn space_char(c: char) -> (r: bool)
    ensures
        r == is_space_char(c),
{
    c == ' ' || c == '\t' || c == '\r' || c == '\n'
}

/// What `written` becomes when `text` is added to it with every run of
/// whitespace between two words as one space, and without the whitespace
/// before the first word and behind the last; `gap` says that whitespace
/// has been passed since the last word.
pub open spec fn collapse(text: Seq<char>, written: Seq<char>, gap: bool) -> Seq<char>
    decreases text.len(),
{
    if text.len() == 0 {
        written
    } else if is_space_char(text[0]) {
        collapse(text.skip(1), written, written.len() > 0)
    } else if gap {
        collapse(text.skip(1), written.push(' ').push(text[0]), false)
    } else {
        collapse(text.skip(1), written.push(text[0]), false)
    }
}

/// `text` with its whitespace collapsed and trimmed.
pub open spec fn collapsed(text: Seq<char>) -> Seq<char> {
    collapse(text, Seq::empty(), false)
}

/// `text` with its whitespace collapsed and trimmed.
pub fn collapse_whitespace(text: &str) -> (result: String)
    ensures
        result@ == collapsed(text@),
{
    let mut result = String::new();
    let mut chars = text.chars();
    let mut gap = false;
    let ghost mut rest = text@;
    loop
        invariant
            chars.remaining() =~= rest,
            collapse(rest, result@, gap) == collapsed(text@),
        ensures
            rest.len() == 0,
        decreases rest.len(),
    {
        match chars.next() {
            Some(c) => {
                assert(chars.remaining() =~= rest.skip(1));
                if space_char(c) {
                    gap = !result.as_str().is_empty();
                } else {
                    if gap {
                        push_char(&mut result, ' ');
                    }
                    push_char(&mut result, c);
                    gap = false;
                }
                proof {
                    rest = rest.skip(1);
                }
            },
            None => {
                break ;
            },
        }
    }
    result
}

/// The lowercase form of a text, as the standard library maps it.
pub uninterp spec fn lowercased(text: Seq<char>) -> Seq<char>;

/// The lowercase form of `text`: `str::to_lowercase` of the standard
/// library, whose result depends on the characters of `text` alone.
#[verifier::external_body]
pub(crate) fn lowercase(text: &str) -> (lower: String)
    ensures
        lower@ == lowercased(text@),
{
    text.to_lowercase()
}

/// The form of a label by which a reference finds its definition: in
/// lowercase, with its whitespace collapsed and trimmed.
pub open spec fn normalized(label: Seq<char>) -> Seq<char> {
    collapsed(lowercased(label))
}

/// The form of `label` by which a reference finds its definition.
pub fn normalize(label: &str) -> (identifier: String)
    ensures
        identifier@ == normalized(label@),
{
    let lower = lowercase(label);
    collapse_whitespace(lower.as_str())
}

} // verus!
