//! Registered names: a type name in `UpperCamelCase` becomes the name a
//! filter is registered under, in `snake_case`.
use vstd::prelude::*;

verus! {

/// Whether `c` has the Unicode `Uppercase` property, as `char::is_uppercase` reports it.
pub uninterp spec fn is_uppercase_char(c: char) -> bool;

/// The lowercase mapping of `c`, as `char::to_lowercase` yields it.
pub uninterp spec fn lowercase_of(c: char) -> Seq<char>;

/// Whether `c` is uppercase.
///
/// Calls `char::is_uppercase`. The contract names its result and adds what
/// std documents for ASCII: of the ASCII characters, exactly `A`..`Z` are
/// uppercase.
#[verifier::external_body]
fn char_is_uppercase(c: char) -> (upper: bool)
    ensures
        upper == is_uppercase_char(c),
        (c as u32) < 128 ==> (upper <==> 'A' <= c <= 'Z'),
{
    c.is_uppercase()
}

/// The lowercase mapping of `c`, collected into a string.
///
/// Calls `char::to_lowercase`. The contract names its result and adds what
/// std documents for ASCII: `A`..`Z` map to the one letter 32 code points on.
#[verifier::external_body]
fn char_to_lowercase(c: char) -> (lower: String)
    ensures
        lower@ == lowercase_of(c),
        'A' <= c <= 'Z' ==> lower@ == seq![((c as u32) + 32) as char],
{
    c.to_lowercase().collect()
}

/// Appends one character.
///
/// Calls `String::push`, which std documents as appending the character to
/// the end of the string; the contract claims exactly that.
#[verifier::external_body]
fn push_char(s: &mut String, c: char)
    ensures
        final(s)@ == old(s)@.push(c),
{
    s.push(c);
}

/// `name` in `snake_case`: each uppercase character becomes its lowercase
/// mapping, preceded by `_` unless it comes first.
pub open spec fn snake_case(name: Seq<char>) -> Seq<char>
    decreases name.len(),
{
    if name.len() == 0 {
        seq![]
    } else {
        let prev = snake_case(name.drop_last());
        let c = name.last();
        if is_uppercase_char(c) {
            if name.len() > 1 {
                prev.push('_') + lowercase_of(c)
            } else {
                prev + lowercase_of(c)
            }
        } else {
            prev.push(c)
        }
    }
}

/// Whether `c` is an ASCII uppercase letter.
pub open spec fn is_ascii_upper(c: char) -> bool {
    'A' <= c <= 'Z'
}

/// The ASCII lowercase letter of the uppercase letter `c`.
pub open spec fn ascii_lower(c: char) -> char {
    ((c as u32) + 32) as char
}

/// Whether `c` is an ASCII character.
pub open spec fn is_ascii_char(c: char) -> bool {
    (c as u32) < 128
}

/// Whether every character of `name` is an ASCII character.
pub open spec fn is_ascii_name(name: Seq<char>) -> bool {
    forall|i: int| 0 <= i < name.len() ==> is_ascii_char(#[trigger] name[i])
}

/// `name` in ASCII `snake_case`: each uppercase letter becomes its lowercase
/// letter, preceded by `_` unless it comes first.
pub open spec fn ascii_snake_case(name: Seq<char>) -> Seq<char>
    decreases name.len(),
{
    if name.len() == 0 {
        seq![]
    } else {
        let prev = ascii_snake_case(name.drop_last());
        let c = name.last();
        if is_ascii_upper(c) {
            if name.len() > 1 {
                prev.push('_').push(ascii_lower(c))
            } else {
                prev.push(ascii_lower(c))
            }
        } else {
            prev.push(c)
        }
    }
}

/// The number of uppercase letters of `name` after its first character.
pub open spec fn inner_uppers(name: Seq<char>) -> nat
    decreases name.len(),
{
    if name.len() <= 1 {
        0
    } else {
        inner_uppers(name.drop_last()) + if is_ascii_upper(name.last()) { 1nat } else { 0nat }
    }
}

/// Converts an `UpperCamelCase` name to `snake_case`.
pub fn to_snake_case(name: &str) -> (output: String)
    ensures
        output@ == snake_case(name@),
        is_ascii_name(name@) ==> output@ == ascii_snake_case(name@),
{
    let mut output = String::new();
    let mut first = true;
    for character in it: name.chars()
        invariant
            first == (it.index() == 0),
            it.seq() == name@,
            output@ == snake_case(name@.take(it.index() as int)),
            is_ascii_name(name@) ==> output@ == ascii_snake_case(name@.take(it.index() as int)),
    {
        proof {
            assert(name@.take(it.index() + 1).drop_last() =~= name@.take(it.index() as int));
            assert(name@.take(it.index() + 1).last() == character);
            if is_ascii_name(name@) {
                assert(is_ascii_char(name@[it.index() as int]));
            }
        }
        if char_is_uppercase(character) {
            if !first {
                push_char(&mut output, '_');
            }
            let lower = char_to_lowercase(character);
            output.append(lower.as_str());
        } else {
            push_char(&mut output, character);
        }
        first = false;
    }
    proof {
        assert(name@.take(name@.len() as int) =~= name@);
    }
    output
}

/// A name without uppercase characters is already in `snake_case`.
pub proof fn law_snake_case_keeps_lowercase_names(name: Seq<char>)
    requires
        forall|i: int| 0 <= i < name.len() ==> !is_uppercase_char(#[trigger] name[i]),
    ensures
        snake_case(name) == name,
    decreases name.len(),
{
    if name.len() > 0 {
        law_snake_case_keeps_lowercase_names(name.drop_last());
        assert(name.drop_last().push(name.last()) =~= name);
    }
}

/// The ASCII `snake_case` of an ASCII name is an ASCII name without uppercase letters.
proof fn lemma_ascii_snake_case_lower(name: Seq<char>)
    requires
        is_ascii_name(name),
    ensures
        is_ascii_name(ascii_snake_case(name)),
        forall|i: int|
            0 <= i < ascii_snake_case(name).len() ==> !is_ascii_upper(#[trigger] ascii_snake_case(name)[i]),
    decreases name.len(),
{
    if name.len() > 0 {
        let d = name.drop_last();
        assert forall|i: int| 0 <= i < d.len() implies is_ascii_char(#[trigger] d[i]) by {
            assert(d[i] == name[i]);
        }
        lemma_ascii_snake_case_lower(d);
        let c = name.last();
        assert(is_ascii_char(name[name.len() - 1]));
        if is_ascii_upper(c) {
            assert(65 <= c as u32 <= 90);
            assert('a' <= ascii_lower(c) <= 'z');
        }
    }
}

/// A name without uppercase letters is its own ASCII `snake_case`.
proof fn lemma_ascii_snake_case_identity(name: Seq<char>)
    requires
        forall|i: int| 0 <= i < name.len() ==> !is_ascii_upper(#[trigger] name[i]),
    ensures
        ascii_snake_case(name) == name,
    decreases name.len(),
{
    if name.len() > 0 {
        let d = name.drop_last();
        assert forall|i: int| 0 <= i < d.len() implies !is_ascii_upper(#[trigger] d[i]) by {
            assert(d[i] == name[i]);
        }
        lemma_ascii_snake_case_identity(d);
        assert(!is_ascii_upper(name[name.len() - 1]));
        assert(d.push(name.last()) =~= name);
    }
}

/// Converting an ASCII name to `snake_case` leaves no uppercase letter, and
/// converting the result again changes nothing.
pub proof fn law_ascii_snake_case_idempotent(name: Seq<char>)
    requires
        is_ascii_name(name),
    ensures
        is_ascii_name(ascii_snake_case(name)),
        forall|i: int|
            0 <= i < ascii_snake_case(name).len() ==> !is_ascii_upper(#[trigger] ascii_snake_case(name)[i]),
        ascii_snake_case(ascii_snake_case(name)) == ascii_snake_case(name),
{
    lemma_ascii_snake_case_lower(name);
    lemma_ascii_snake_case_identity(ascii_snake_case(name));
}

/// The ASCII `snake_case` of a name is longer by one `_` for each uppercase
/// letter after the first character.
pub proof fn law_ascii_snake_case_len(name: Seq<char>)
    ensures
        ascii_snake_case(name).len() == name.len() + inner_uppers(name),
    decreases name.len(),
{
    if name.len() > 0 {
        law_ascii_snake_case_len(name.drop_last());
    }
}

/// `s` without its `_` characters.
pub open spec fn without_underscores(s: Seq<char>) -> Seq<char>
    decreases s.len(),
{
    if s.len() == 0 {
        seq![]
    } else {
        without_underscores(s.drop_last()) + if s.last() == '_' {
            seq![]
        } else {
            seq![s.last()]
        }
    }
}

/// `s` with each ASCII uppercase letter made lowercase.
pub open spec fn ascii_lowercase(s: Seq<char>) -> Seq<char> {
    s.map_values(|c: char| if is_ascii_upper(c) { ascii_lower(c) } else { c })
}

/// Removing `_` from the end of a sequence removes it from what came before.
proof fn lemma_without_underscores_push(s: Seq<char>, c: char)
    ensures
        without_underscores(s.push(c)) == without_underscores(s) + if c == '_' {
            seq![]
        } else {
            seq![c]
        },
{
    assert(s.push(c).drop_last() =~= s);
}

/// The ASCII `snake_case` of a name only adds `_` characters to the
/// lowercased name: with every `_` removed, the two are the same.
pub proof fn law_ascii_snake_case_letters(name: Seq<char>)
    ensures
        without_underscores(ascii_snake_case(name)) == without_underscores(ascii_lowercase(name)),
    decreases name.len(),
{
    if name.len() > 0 {
        let d = name.drop_last();
        let c = name.last();
        law_ascii_snake_case_letters(d);
        assert(ascii_lowercase(name) =~= ascii_lowercase(d).push(
            if is_ascii_upper(c) {
                ascii_lower(c)
            } else {
                c
            },
        ));
        let prev = ascii_snake_case(d);
        if is_ascii_upper(c) {
            assert(65 <= c as u32 <= 90);
            assert(ascii_lower(c) != '_');
            lemma_without_underscores_push(ascii_lowercase(d), ascii_lower(c));
            if name.len() > 1 {
                lemma_without_underscores_push(prev, '_');
                lemma_without_underscores_push(prev.push('_'), ascii_lower(c));
                assert(without_underscores(prev) + seq![] =~= without_underscores(prev));
            } else {
                lemma_without_underscores_push(prev, ascii_lower(c));
            }
        } else {
            lemma_without_underscores_push(prev, c);
            lemma_without_underscores_push(ascii_lowercase(d), c);
        }
    }
}

} // verus!
