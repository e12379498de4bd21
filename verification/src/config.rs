//! What a build configures: the root file of the discovery and the name of the
//! artifact that keeps the cache between passes.

use vstd::prelude::*;
use crate::source::{Annotation, AnnotationModel};
use crate::symbol::SymbolPath;

verus! {

/// The root file where none is configured.
pub open spec fn default_root() -> Seq<char> {
    "src/main.rs"@
}

/// Whether a text begins as a string literal does: with a double quote, or
/// with the `r` of a raw string.
pub open spec fn begins_as_string(tokens: Seq<char>) -> bool {
    tokens.len() > 0 && (tokens[0] == '"' || tokens[0] == 'r')
}

/// Whether a character opens a bracket.
pub open spec fn opens_bracket(character: char) -> bool {
    character == '(' || character == '[' || character == '{'
}

/// How many `#` stand in a row from the index `from` on.
pub open spec fn hashes_at(tokens: Seq<char>, from: int) -> nat
    decreases tokens.len() - from,
{
    if 0 <= from < tokens.len() && tokens[from] == '#' {
        1 + hashes_at(tokens, from + 1)
    } else {
        0
    }
}

/// The index behind the quote that closes a string whose content goes on at
/// `from`, where a backslash takes the character behind it along; the length
/// of the text where no quote closes the string.
pub open spec fn cooked_end(tokens: Seq<char>, from: int) -> int
    decreases tokens.len() - from,
{
    if from < 0 || from >= tokens.len() {
        tokens.len() as int
    } else if tokens[from] == '"' {
        from + 1
    } else if tokens[from] == '\\' {
        if from + 1 >= tokens.len() {
            tokens.len() as int
        } else {
            cooked_end(tokens, from + 2)
        }
    } else {
        cooked_end(tokens, from + 1)
    }
}

/// The index behind the end of a raw string whose content goes on at `from`:
/// behind the first quote that as many `#` follow as opened the string; the
/// length of the text where there is no such quote.
pub open spec fn raw_end(tokens: Seq<char>, from: int, hashes: nat) -> int
    decreases tokens.len() - from,
{
    if from < 0 || from >= tokens.len() {
        tokens.len() as int
    } else if tokens[from] == '"' && hashes_at(tokens, from + 1) >= hashes {
        from + 1 + hashes
    } else {
        raw_end(tokens, from + 1, hashes)
    }
}

/// The index behind the string literal that a text begins with, but for a
/// suffix: the whole of the text where the literal is not closed, and `0`
/// where the text does not begin with a string literal.
pub open spec fn literal_end(tokens: Seq<char>) -> int {
    if tokens.len() == 0 {
        0
    } else if tokens[0] == '"' {
        cooked_end(tokens, 1)
    } else if tokens[0] == 'r' {
        let hashes = hashes_at(tokens, 1);
        if 1 + hashes < tokens.len() && tokens[1 + hashes as int] == '"' {
            raw_end(tokens, 2 + hashes as int, hashes)
        } else {
            0
        }
    } else {
        0
    }
}

/// Whether a text may be read as a string literal: it begins as one does, and
/// no bracket is opened behind the literal. A text with a bracket behind the
/// literal is no string literal, whatever the bracket holds.
pub open spec fn may_be_string(tokens: Seq<char>) -> bool {
    &&& begins_as_string(tokens)
    &&& forall|i: int| literal_end(tokens) <= i < tokens.len() ==> !opens_bracket(#[trigger] tokens[i])
}

/// Calls `syn::parse_str` for a `syn::LitStr` and, where that succeeds,
/// `LitStr::value`: the value of the string literal that the text writes
/// down, or nothing. The parser knows the literals that begin as a string
/// does and panics on some others, and it goes one call deeper for each
/// bracket that is open behind the literal, so only a text that begins so and
/// opens no bracket there may be handed in. Nothing is claimed of the result:
/// how a text is split into tokens depends on whether the process runs inside
/// the compiler.
#[verifier::external_body]
fn string_literal(tokens: &str) -> (value: Option<String>)
    requires
        may_be_string(tokens@),
{
    syn::parse_str::<syn::LitStr>(tokens).ok().map(|literal| literal.value())
}

/// The first annotation of the list that has the given name.
pub open spec fn first_named(annotations: Seq<AnnotationModel>, key: Seq<char>) -> Option<
    AnnotationModel,
>
    decreases annotations.len(),
{
    if annotations.len() == 0 {
        None
    } else if annotations[0].name == Some(key) {
        Some(annotations[0])
    } else {
        first_named(annotations.drop_first(), key)
    }
}

/// The text in which the value of the annotation `key` is looked for: the
/// arguments of the first annotation of that name, where it has arguments and
/// they may be read as a string literal.
pub open spec fn attr_source_of(annotations: Seq<AnnotationModel>, key: Seq<char>) -> Option<
    Seq<char>,
> {
    match first_named(annotations, key) {
        Some(annotation) => match annotation.arguments {
            Some(tokens) => if may_be_string(tokens) {
                Some(tokens)
            } else {
                None
            },
            None => None,
        },
        None => None,
    }
}

/// Whether a text begins as a string literal does.
pub fn is_string_start(tokens: &str) -> (begins: bool)
    ensures
        begins == begins_as_string(tokens@),
{
    if tokens.unicode_len() == 0 {
        false
    } else {
        let first = tokens.get_char(0);
        first == '"' || first == 'r'
    }
}

/// Counts the `#` that stand in a row from the index `from` on.
fn count_hashes(tokens: &str, from: usize, length: usize) -> (count: usize)
    requires
        length == tokens@.len(),
        from <= length,
    ensures
        count == hashes_at(tokens@, from as int),
        from + count <= length,
{
    let mut index: usize = from;
    while index < length && tokens.get_char(index) == '#'
        invariant
            from <= index <= length,
            length == tokens@.len(),
            hashes_at(tokens@, from as int) == (index - from) + hashes_at(tokens@, index as int),
        decreases length - index,
    {
        index = index + 1;
    }
    index - from
}

/// Finds the end of a string whose content begins behind its first quote.
fn cooked_close(tokens: &str, length: usize) -> (end: usize)
    requires
        length == tokens@.len(),
        length >= 1,
    ensures
        end == cooked_end(tokens@, 1),
        end <= length,
{
    let mut index: usize = 1;
    while index < length
        invariant
            1 <= index <= length,
            length == tokens@.len(),
            cooked_end(tokens@, index as int) == cooked_end(tokens@, 1),
        decreases length - index,
    {
        let character = tokens.get_char(index);
        if character == '"' {
            return index + 1;
        }
        if character == '\\' {
            if index + 1 >= length {
                return length;
            }
            index = index + 2;
        } else {
            index = index + 1;
        }
    }
    length
}

/// Finds the end of a raw string whose content begins at `from`.
fn raw_close(tokens: &str, from: usize, hashes: usize, length: usize) -> (end: usize)
    requires
        length == tokens@.len(),
        from <= length,
    ensures
        end == raw_end(tokens@, from as int, hashes as nat),
        end <= length,
{
    let mut index: usize = from;
    while index < length
        invariant
            from <= index <= length,
            length == tokens@.len(),
            raw_end(tokens@, index as int, hashes as nat) == raw_end(
                tokens@,
                from as int,
                hashes as nat,
            ),
        decreases length - index,
    {
        if tokens.get_char(index) == '"' {
            let behind = count_hashes(tokens, index + 1, length);
            if behind >= hashes {
                return index + 1 + hashes;
            }
        }
        index = index + 1;
    }
    length
}

/// Finds the end of the string literal that a text begins with.
pub fn literal_close(tokens: &str) -> (end: usize)
    ensures
        end == literal_end(tokens@),
        end <= tokens@.len(),
{
    let length: usize = tokens.unicode_len();
    if length == 0 {
        return 0;
    }
    let first = tokens.get_char(0);
    if first == '"' {
        cooked_close(tokens, length)
    } else if first == 'r' {
        let hashes = count_hashes(tokens, 1, length);
        if 1 + hashes < length && tokens.get_char(1 + hashes) == '"' {
            raw_close(tokens, 2 + hashes, hashes, length)
        } else {
            0
        }
    } else {
        0
    }
}

/// Whether a text may be read as a string literal.
pub fn is_possible_string(tokens: &str) -> (possible: bool)
    ensures
        possible == may_be_string(tokens@),
{
    if !is_string_start(tokens) {
        return false;
    }
    let length: usize = tokens.unicode_len();
    let end = literal_close(tokens);
    let mut index: usize = end;
    while index < length
        invariant
            end <= index <= length,
            length == tokens@.len(),
            end == literal_end(tokens@),
            forall|i: int| end <= i < index ==> !opens_bracket(#[trigger] tokens@[i]),
        decreases length - index,
    {
        let character = tokens.get_char(index);
        if character == '(' || character == '[' || character == '{' {
            return false;
        }
        index = index + 1;
    }
    true
}

/// Picks the text in which the value of the annotation `key` is looked for:
/// the arguments of the first annotation of that name, where it has arguments
/// and they may be read as a string literal. An annotation whose path is not
/// a single identifier has no name and is passed over.
pub fn attr_source(annotations: &Vec<Annotation>, key: &str) -> (source: Option<String>)
    ensures
        source.deep_view() == attr_source_of(annotations.deep_view(), key@),
{
    let mut index: usize = 0;
    assert(annotations.deep_view().skip(0) =~= annotations.deep_view());
    while index < annotations.len()
        invariant
            index <= annotations.len(),
            first_named(annotations.deep_view(), key@) == first_named(
                annotations.deep_view().skip(index as int),
                key@,
            ),
        decreases annotations.len() - index,
    {
        let ghost rest = annotations.deep_view().skip(index as int);
        assert(rest[0] == annotations[index as int]@);
        assert(rest.drop_first() =~= annotations.deep_view().skip(index as int + 1));
        let annotation = &annotations[index];
        let named = match &annotation.name {
            Some(name) => *name == key.to_owned(),
            None => false,
        };
        if named {
            return match &annotation.arguments {
                Some(tokens) => {
                    if is_possible_string(tokens.as_str()) {
                        Some(tokens.clone())
                    } else {
                        None
                    }
                },
                None => None,
            };
        }
        index = index + 1;
    }
    None
}

/// Reads the value of the first annotation named `key`: the value of the
/// string literal that is its only argument. The text of [`attr_source`] is
/// handed to the parser, and there is no value where there is no such text.
pub fn take_attr_value(annotations: &Vec<Annotation>, key: &str) -> (value: Option<String>)
    ensures
        attr_source_of(annotations.deep_view(), key@) is None ==> value is None,
{
    match attr_source(annotations, key) {
        Some(tokens) => string_literal(tokens.as_str()),
        None => None,
    }
}

/// The root file for a configured value: the value, or the default where
/// there is none.
pub fn root_or_default(value: Option<String>) -> (name: String)
    ensures
        name@ == match value {
            Some(value) => value@,
            None => default_root(),
        },
{
    match value {
        Some(value) => value,
        None => "src/main.rs".to_owned(),
    }
}

/// The configured root file: the value of the annotation `root`, or the
/// default where there is none.
pub fn root_file_name(annotations: &Vec<Annotation>) -> (name: String)
    ensures
        attr_source_of(annotations.deep_view(), "root"@) is None ==> name@ == default_root(),
{
    root_or_default(take_attr_value(annotations, "root"))
}

/// The symbolic path of the root module: the single segment `self`.
pub fn root_module() -> (module: SymbolPath)
    ensures
        module@ == seq!["self"@],
{
    let mut segments: Vec<String> = Vec::new();
    segments.push("self".to_owned());
    assert(segments.deep_view() =~= seq!["self"@]);
    SymbolPath::new(segments)
}

/// The sixteen digits of base sixteen, in order.
pub open spec fn hex_digits() -> Seq<char> {
    "0123456789abcdef"@
}

/// A number in base sixteen, lower case, without leading zeros.
pub open spec fn hex_text(number: nat) -> Seq<char>
    decreases number,
{
    if number < 16 {
        hex_digits().subrange(number as int, number as int + 1)
    } else {
        hex_text(number / 16) + hex_digits().subrange((number % 16) as int, (number % 16) as int + 1)
    }
}

/// The file name of the cache artifact for a root whose hash is `hash`.
pub open spec fn artifact_name_of(hash: u64) -> Seq<char> {
    "discovery_cache_"@ + hex_text(hash as nat) + ".ron"@
}

/// Writes a number in base sixteen.
pub fn hex(number: u64) -> (text: String)
    ensures
        text@ == hex_text(number as nat),
    decreases number,
{
    proof {
        reveal_strlit("0123456789abcdef");
    }
    let digits = "0123456789abcdef";
    if number < 16 {
        let digit: usize = number as usize;
        digits.substring_char(digit, digit + 1).to_owned()
    } else {
        let mut text = hex(number / 16);
        let digit: usize = (number % 16) as usize;
        text.append(digits.substring_char(digit, digit + 1));
        text
    }
}

/// The file name of the cache artifact for a root whose hash is `hash`.
pub fn artifact_name(hash: u64) -> (name: String)
    ensures
        name@ == artifact_name_of(hash),
{
    let mut name = "discovery_cache_".to_owned();
    name.append(hex(hash).as_str());
    name.append(".ron");
    name
}

/// Hashes a text with `rustc_hash::FxHasher`. The hash depends on the width
/// and the byte order of the machine, so nothing is claimed of it.
#[verifier::external_body]
fn fx_hash(text: &str) -> (hash: u64) {
    let mut hasher = rustc_hash::FxHasher::default();
    std::hash::Hash::hash(text, &mut hasher);
    std::hash::Hasher::finish(&hasher)
}

/// The file name of the cache artifact for a root file, given the text of the
/// root's path: two roots get two artifacts, but for a collision of hashes.
pub fn cache_artifact_name(root: &str) -> (name: String)
    ensures
        exists|hash: u64| name@ == artifact_name_of(hash),
{
    artifact_name(fx_hash(root))
}

} // verus!
