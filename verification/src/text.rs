//! Small operations on text that paths and symbols are built from.

use vstd::prelude::*;

verus! {

/// Whether a name is written in escaped form, that is with `r#` in front.
pub open spec fn is_escaped(name: Seq<char>) -> bool {
    name.len() >= 2 && name[0] == 'r' && name[1] == '#'
}

/// The plain spelling of a name: an escaped name without its `r#`, any other
/// name as it is.
pub open spec fn plain_spelling(name: Seq<char>) -> Seq<char> {
    if is_escaped(name) {
        name.subrange(2, name.len() as int)
    } else {
        name
    }
}

/// The index of the last `.` in a name, or `-1` where it has none.
pub open spec fn last_dot(name: Seq<char>) -> int
    decreases name.len(),
{
    if name.len() == 0 {
        -1
    } else if name.last() == '.' {
        name.len() - 1
    } else {
        last_dot(name.drop_last())
    }
}

/// A file name without its extension. A name that has no `.` after its first
/// character has no extension, and neither has `..`.
pub open spec fn stem(name: Seq<char>) -> Seq<char> {
    let dot = last_dot(name);
    if dot <= 0 || name == seq!['.', '.'] {
        name
    } else {
        name.take(dot)
    }
}

/// The parts written one after the other with the separator between them.
pub open spec fn joined(parts: Seq<Seq<char>>, separator: Seq<char>) -> Seq<char>
    decreases parts.len(),
{
    if parts.len() == 0 {
        Seq::empty()
    } else if parts.len() == 1 {
        parts[0]
    } else {
        joined(parts.drop_last(), separator) + separator + parts.last()
    }
}

/// A dot at `dot` with none behind it is the last dot.
pub proof fn lemma_last_dot_found(name: Seq<char>, dot: int)
    requires
        0 <= dot < name.len(),
        name[dot] == '.',
        forall|j: int| dot < j < name.len() ==> name[j] != '.',
    ensures
        last_dot(name) == dot,
    decreases name.len(),
{
    if name.last() != '.' {
        lemma_last_dot_found(name.drop_last(), dot);
    }
}

/// A name without any dot has no last dot.
pub proof fn lemma_last_dot_absent(name: Seq<char>)
    requires
        forall|j: int| 0 <= j < name.len() ==> name[j] != '.',
    ensures
        last_dot(name) == -1,
    decreases name.len(),
{
    if name.len() > 0 {
        lemma_last_dot_absent(name.drop_last());
    }
}

/// What a list stands for grows with the list.
pub proof fn lemma_push_view<T: DeepView>(before: Vec<T>, after: Vec<T>, last: T)
    requires
        after@ == before@.push(last),
    ensures
        after.deep_view() == before.deep_view().push(last.deep_view()),
{
    let expected = before.deep_view().push(last.deep_view());
    assert(after.deep_view().len() == expected.len());
    assert forall|i: int| 0 <= i < expected.len() implies after.deep_view()[i] == expected[i] by {
        if i < before@.len() {
            assert(after@[i] == before@[i]);
        }
    }
    assert(after.deep_view() =~= expected);
}

/// Rewrites an escaped name to its plain spelling.
pub fn strip_escape(name: &str) -> (plain: String)
    ensures
        plain@ == plain_spelling(name@),
{
    let length: usize = name.unicode_len();
    if length >= 2 && name.get_char(0) == 'r' && name.get_char(1) == '#' {
        name.substring_char(2, length).to_owned()
    } else {
        name.to_owned()
    }
}

/// Removes the extension of a file name.
pub fn strip_extension(name: &str) -> (base: String)
    ensures
        base@ == stem(name@),
{
    let length: usize = name.unicode_len();
    let mut index: usize = length;
    while index > 0 && name.get_char(index - 1) != '.'
        invariant
            index <= length,
            length == name@.len(),
            forall|j: int| index <= j < length ==> name@[j] != '.',
        decreases index,
    {
        index = index - 1;
    }
    if index == 0 {
        proof {
            lemma_last_dot_absent(name@);
        }
        return name.to_owned();
    }
    let dot: usize = index - 1;
    proof {
        lemma_last_dot_found(name@, dot as int);
    }
    if dot == 0 {
        name.to_owned()
    } else if length == 2 && name.get_char(0) == '.' {
        assert(name@ =~= seq!['.', '.']);
        name.to_owned()
    } else {
        assert(name@ != seq!['.', '.']) by {
            if name@.len() == 2 {
                assert(name@[0] != '.');
            }
        }
        name.substring_char(0, dot).to_owned()
    }
}

/// Writes the parts one after the other with the separator between them.
pub fn join(parts: &Vec<String>, separator: &str) -> (text: String)
    ensures
        text@ == joined(parts.deep_view(), separator@),
{
    let mut text = String::new();
    let mut index: usize = 0;
    while index < parts.len()
        invariant
            index <= parts.len(),
            text@ == joined(parts.deep_view().take(index as int), separator@),
        decreases parts.len() - index,
    {
        if index > 0 {
            text.append(separator);
        }
        text.append(parts[index].as_str());
        proof {
            let views = parts.deep_view();
            let upto = views.take(index as int + 1);
            assert(upto.drop_last() =~= views.take(index as int));
            assert(upto.last() == parts[index as int]@);
            if index == 0 {
                assert(text@ =~= upto[0]);
            }
        }
        index = index + 1;
    }
    assert(parts.deep_view().take(index as int) =~= parts.deep_view());
    text
}

/// Copies a list of texts.
pub fn copy_texts(texts: &Vec<String>) -> (copy: Vec<String>)
    ensures
        copy.deep_view() == texts.deep_view(),
{
    let mut copy: Vec<String> = Vec::new();
    let mut index: usize = 0;
    while index < texts.len()
        invariant
            index <= texts.len(),
            copy.deep_view() == texts.deep_view().take(index as int),
        decreases texts.len() - index,
    {
        let ghost before = copy;
        let text = texts[index].clone();
        copy.push(text);
        proof {
            lemma_push_view(before, copy, text);
            assert(copy.deep_view() =~= texts.deep_view().take(index as int + 1));
        }
        index = index + 1;
    }
    assert(texts.deep_view().take(index as int) =~= texts.deep_view());
    copy
}

} // verus!
