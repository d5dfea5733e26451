//! The template renderer: each name is put into a template in place of the
//! placeholder `{}`, and the results are joined by a separator.

use vstd::prelude::*;
use crate::error::{ExpandError, Failure};
use crate::text::{chars_of, rows, rows_of, string_of, texts};

verus! {

/// The placeholder `{}` stands at position `i` of `template`.
pub open spec fn placeholder_at(template: Seq<char>, i: int) -> bool {
    &&& 0 <= i
    &&& i + 1 < template.len()
    &&& template[i] == '{'
    &&& template[i + 1] == '}'
}

/// The template holds the placeholder somewhere.
pub open spec fn has_placeholder(template: Seq<char>) -> bool {
    exists|i: int| placeholder_at(template, i)
}

/// The template from position `i` on, with `name` in place of each
/// placeholder. Placeholders are found from left to right; what was put in
/// is not searched again.
pub open spec fn substitute_from(template: Seq<char>, name: Seq<char>, i: int) -> Seq<char>
    decreases template.len() - i,
{
    if i >= template.len() {
        Seq::empty()
    } else if placeholder_at(template, i) {
        name + substitute_from(template, name, i + 2)
    } else {
        seq![template[i]] + substitute_from(template, name, i + 1)
    }
}

/// The template with `name` in place of each placeholder.
pub open spec fn substitute(template: Seq<char>, name: Seq<char>) -> Seq<char> {
    substitute_from(template, name, 0)
}

/// The items in order, with the separator between each two neighbours.
pub open spec fn joined<A>(items: Seq<Seq<A>>, separator: Seq<A>) -> Seq<A>
    decreases items.len(),
{
    if items.len() == 0 {
        Seq::empty()
    } else if items.len() == 1 {
        items[0]
    } else {
        joined(items.drop_last(), separator) + separator + items.last()
    }
}

/// The template that is used: the placeholder alone where none is given.
pub open spec fn effective_template(template: Seq<char>) -> Seq<char> {
    if template.len() == 0 {
        seq!['{', '}']
    } else {
        template
    }
}

/// The separator that is used: a line feed where the two characters `\n`
/// are given, else the separator as given.
pub open spec fn effective_separator(separator: Seq<char>) -> Seq<char> {
    if separator == seq!['\\', 'n'] {
        seq!['\n']
    } else {
        separator
    }
}

/// Each name put into the template, in the order of the names.
pub open spec fn rendered_names(names: Seq<Seq<char>>, template: Seq<char>) -> Seq<Seq<char>> {
    Seq::new(names.len(), |k: int| substitute(template, names[k]))
}

/// What the names render to through a template and a separator. A template
/// that is given must hold the placeholder.
pub open spec fn rendering(names: Seq<Seq<char>>, template: Seq<char>, separator: Seq<char>)
    -> Result<Seq<char>, Failure> {
    if template.len() > 0 && !has_placeholder(template) {
        Err(Failure::MissingPlaceholder)
    } else {
        Ok(
            joined(
                rendered_names(names, effective_template(template)),
                effective_separator(separator),
            ),
        )
    }
}

/// Tells whether the template holds the placeholder.
pub fn contains_placeholder(template: &Vec<char>) -> (r: bool)
    ensures
        r == has_placeholder(template@),
{
    let n: usize = template.len();
    if n < 2 {
        return false;
    }
    let mut i: usize = 0;
    while i < n - 1
        invariant
            n == template@.len(),
            n >= 2,
            i <= n - 1,
            forall|k: int| 0 <= k < i ==> !placeholder_at(template@, k),
        decreases n - i,
    {
        if template[i] == '{' && template[i + 1] == '}' {
            assert(placeholder_at(template@, i as int));
            return true;
        }
        i = i + 1;
    }
    false
}

/// Appends `more` to `out`.
fn push_all(out: &mut Vec<char>, more: &Vec<char>)
    ensures
        final(out)@ == old(out)@ + more@,
{
    let mut i: usize = 0;
    while i < more.len()
        invariant
            i <= more.len(),
            out@ == old(out)@ + more@.take(i as int),
        decreases more.len() - i,
    {
        out.push(more[i]);
        assert(more@.take(i + 1) =~= more@.take(i as int).push(more@[i as int]));
        assert(out@ =~= old(out)@ + more@.take(i + 1));
        i = i + 1;
    }
    assert(more@.take(more.len() as int) =~= more@);
}

/// Appends to `out` the template with `name` in place of each placeholder.
pub fn push_substituted(out: &mut Vec<char>, template: &Vec<char>, name: &Vec<char>)
    ensures
        final(out)@ == old(out)@ + substitute(template@, name@),
{
    let mut i: usize = 0;
    while i < template.len()
        invariant
            i <= template.len(),
            out@ + substitute_from(template@, name@, i as int) == old(out)@ + substitute(
                template@,
                name@,
            ),
        decreases template.len() - i,
    {
        let ghost before = out@;
        if template[i] == '{' && i + 1 < template.len() && template[i + 1] == '}' {
            push_all(out, name);
            assert(out@ + substitute_from(template@, name@, i + 2) =~= before + substitute_from(
                template@,
                name@,
                i as int,
            ));
            i = i + 2;
        } else {
            out.push(template[i]);
            assert(out@ + substitute_from(template@, name@, i + 1) =~= before + substitute_from(
                template@,
                name@,
                i as int,
            ));
            i = i + 1;
        }
    }
    assert(out@ =~= out@ + substitute_from(template@, name@, i as int));
}

/// Renders names on vectors of characters: each name put into `template`,
/// the results joined by `separator`, both taken as they are.
pub fn render_chars(names: &Vec<Vec<char>>, template: &Vec<char>, separator: &Vec<char>) -> (r:
    Vec<char>)
    ensures
        r@ == joined(rendered_names(rows(names@), template@), separator@),
{
    let ghost items = rendered_names(rows(names@), template@);
    let mut out: Vec<char> = Vec::new();
    let mut k: usize = 0;
    while k < names.len()
        invariant
            k <= names.len(),
            items == rendered_names(rows(names@), template@),
            out@ == joined(items.take(k as int), separator@),
        decreases names.len() - k,
    {
        let ghost before = out@;
        if k > 0 {
            push_all(&mut out, separator);
        }
        push_substituted(&mut out, template, &names[k]);
        proof {
            let grown = items.take(k + 1);
            assert(grown.drop_last() =~= items.take(k as int));
            assert(grown.last() == substitute(template@, names@[k as int]@));
            if k == 0 {
                assert(out@ =~= grown[0]);
            }
        }
        k = k + 1;
    }
    assert(items.take(names.len() as int) =~= items);
    out
}

/// Renders the names through a template and a separator.
///
/// Each name is put into the template in place of every `{}`, and the
/// results are joined by the separator, in the order of the names and as
/// often as they occur. An empty template stands for `{}`; a template that
/// is given and holds no `{}` is refused with `MissingPlaceholder`, and
/// nothing else is. The separator `\n`, written as a backslash and the
/// letter n, stands for a line feed.
pub fn expand_pattern(hostnames: Vec<String>, expression: &str, separator: &str) -> (r: Result<
    String,
    ExpandError,
>)
    ensures
        match r {
            Ok(text) => rendering(texts(hostnames@), expression@, separator@) == Ok::<
                Seq<char>,
                Failure,
            >(text@),
            Err(e) => rendering(texts(hostnames@), expression@, separator@) == Err::<
                Seq<char>,
                Failure,
            >(e@),
        },
        r is Err <==> expression@.len() > 0 && !has_placeholder(expression@),
        r matches Err(e) ==> e@ == Failure::MissingPlaceholder,
{
    let mut template = chars_of(expression);
    if template.len() == 0 {
        template.push('{');
        template.push('}');
        assert(template@ =~= seq!['{', '}']);
    } else if !contains_placeholder(&template) {
        return Err(ExpandError::MissingPlaceholder);
    }
    let mut sep = chars_of(separator);
    if sep.len() == 2 && sep[0] == '\\' && sep[1] == 'n' {
        assert(sep@ =~= seq!['\\', 'n']);
        sep = Vec::new();
        sep.push('\n');
        assert(sep@ =~= seq!['\n']);
    } else {
        assert(separator@ != seq!['\\', 'n']) by {
            if separator@ == seq!['\\', 'n'] {
                assert(separator@.len() == 2);
                assert(separator@[0] == '\\');
                assert(separator@[1] == 'n');
            }
        }
    }
    let names = rows_of(&hostnames);
    let out = render_chars(&names, &template, &sep);
    Ok(string_of(&out))
}

} // verus!
