//! Paths as the tool reads them: their components, their final name and its
//! extension, following the Unix rules of `std::path`.
use vstd::prelude::*;

use crate::text::{
    chars_of, lemma_split_pieces_lack_sep, split, split_str, starts_with_char, str_starts_with_char,
};

verus! {

/// A piece between separators that names a component: not empty, not `.`.
pub open spec fn is_named_part(p: Seq<char>) -> bool {
    p.len() > 0 && p != seq!['.']
}

/// The pieces of `ps` that name components, in order.
pub open spec fn named_parts(ps: Seq<Seq<char>>) -> Seq<Seq<char>>
    decreases ps.len(),
{
    if ps.len() == 0 {
        Seq::<Seq<char>>::empty()
    } else {
        let r = named_parts(ps.drop_last());
        if is_named_part(ps.last()) {
            r.push(ps.last())
        } else {
            r
        }
    }
}

/// A relative path that begins with the current directory: `.` alone or
/// `.` followed by a separator.
pub open spec fn begins_with_cur_dir(s: Seq<char>) -> bool {
    s.len() > 0 && s[0] == '.' && (s.len() == 1 || s[1] == '/')
}

/// The components of a path, each as its text: `/` for the root of an
/// absolute path, `.` for a leading current directory, then every piece
/// between separators that is neither empty nor `.` (so `..` stays).
pub open spec fn components(s: Seq<char>) -> Seq<Seq<char>> {
    if starts_with_char(s, '/') {
        seq![seq!['/']] + named_parts(split(s.drop_first(), '/'))
    } else if begins_with_cur_dir(s) {
        seq![seq!['.']] + named_parts(split(s.drop_first(), '/'))
    } else {
        named_parts(split(s, '/'))
    }
}

/// The final component of a path when it is a name (not the root, `.` or
/// `..`).
pub open spec fn file_name(s: Seq<char>) -> Option<Seq<char>> {
    let c = components(s);
    if c.len() > 0 && c.last() != seq!['/'] && c.last() != seq!['.'] && c.last() != seq![
        '.',
        '.',
    ] {
        Some(c.last())
    } else {
        None
    }
}

/// The index of the last `.` in `name`, or -1 when there is none.
pub open spec fn last_dot(name: Seq<char>) -> int
    decreases name.len(),
{
    if name.len() == 0 {
        -1
    } else if name.last() == '.' {
        name.len() - 1
    } else {
        last_dot(name.drop_last())
    }
}

/// The text after the last `.` of a file name, when that dot is not its
/// first character.
pub open spec fn name_extension(name: Seq<char>) -> Option<Seq<char>> {
    let i = last_dot(name);
    if i > 0 {
        Some(name.subrange(i + 1, name.len() as int))
    } else {
        None
    }
}

/// The extension of a path's file name, as `Path::extension` gives it.
pub open spec fn extension(s: Seq<char>) -> Option<Seq<char>> {
    match file_name(s) {
        Some(name) => name_extension(name),
        None => None,
    }
}

proof fn lemma_named_parts_from(ps: Seq<Seq<char>>)
    ensures
        forall|k: int|
            0 <= k < named_parts(ps).len() ==> is_named_part(#[trigger] named_parts(ps)[k])
                && ps.contains(named_parts(ps)[k]),
    decreases ps.len(),
{
    if ps.len() > 0 {
        let q = ps.drop_last();
        lemma_named_parts_from(q);
        assert forall|k: int| 0 <= k < named_parts(ps).len() implies is_named_part(
            #[trigger] named_parts(ps)[k],
        ) && ps.contains(named_parts(ps)[k]) by {
            if k < named_parts(q).len() {
                assert(named_parts(ps)[k] == named_parts(q)[k]);
                let j = choose|j: int| 0 <= j < q.len() && q[j] == named_parts(q)[k];
                assert(ps[j] == q[j]);
            } else {
                assert(ps[ps.len() - 1] == ps.last());
            }
        }
    }
}

proof fn lemma_named_pieces_of_split(s: Seq<char>)
    ensures
        forall|k: int|
            0 <= k < named_parts(split(s, '/')).len() ==> {
                let c = #[trigger] named_parts(split(s, '/'))[k];
                c.len() > 0 && c != seq!['.'] && !c.contains('/')
            },
{
    lemma_named_parts_from(split(s, '/'));
    lemma_split_pieces_lack_sep(s, '/');
    assert forall|k: int| 0 <= k < named_parts(split(s, '/')).len() implies {
        let c = #[trigger] named_parts(split(s, '/'))[k];
        c.len() > 0 && c != seq!['.'] && !c.contains('/')
    } by {
        let c = named_parts(split(s, '/'))[k];
        let j = choose|j: int| 0 <= j < split(s, '/').len() && split(s, '/')[j] == c;
        assert(!split(s, '/')[j].contains('/'));
    }
}

/// Every component is non-empty; only a first component can be the root
/// `/` (exactly when the path is absolute) or the current directory `.`;
/// every other component is a name with no `/` in it and is not `.`.
pub proof fn lemma_components_shape(s: Seq<char>)
    ensures
        forall|k: int| 0 <= k < components(s).len() ==> (#[trigger] components(s)[k]).len() > 0,
        forall|k: int|
            0 < k < components(s).len() ==> !(#[trigger] components(s)[k]).contains('/')
                && components(s)[k] != seq!['.'],
        starts_with_char(s, '/') <==> (components(s).len() > 0 && components(s)[0] == seq!['/']),
        components(s).len() > 0 && components(s)[0] != seq!['/'] ==> !components(s)[0].contains(
            '/',
        ),
{
    if starts_with_char(s, '/') {
        lemma_named_pieces_of_split(s.drop_first());
        let n = named_parts(split(s.drop_first(), '/'));
        assert forall|k: int| 0 < k < components(s).len() implies !(#[trigger] components(
            s,
        )[k]).contains('/') && components(s)[k] != seq!['.'] by {
            assert(components(s)[k] == n[k - 1]);
        }
        assert forall|k: int| 0 <= k < components(s).len() implies (#[trigger] components(
            s,
        )[k]).len() > 0 by {
            if k > 0 {
                assert(components(s)[k] == n[k - 1]);
            }
        }
    } else if begins_with_cur_dir(s) {
        lemma_named_pieces_of_split(s.drop_first());
        let n = named_parts(split(s.drop_first(), '/'));
        assert forall|k: int| 0 < k < components(s).len() implies !(#[trigger] components(
            s,
        )[k]).contains('/') && components(s)[k] != seq!['.'] by {
            assert(components(s)[k] == n[k - 1]);
        }
        assert forall|k: int| 0 <= k < components(s).len() implies (#[trigger] components(
            s,
        )[k]).len() > 0 by {
            if k > 0 {
                assert(components(s)[k] == n[k - 1]);
            }
        }
        assert(components(s)[0] == seq!['.']);
        assert(!seq!['.'].contains('/')) by {
            if seq!['.'].contains('/') {
                let j = choose|j: int| 0 <= j < 1 && seq!['.'][j] == '/';
            }
        }
        assert(seq!['.'] != seq!['/']) by {
            assert(seq!['.'][0] != seq!['/'][0]);
        }
    } else {
        lemma_named_pieces_of_split(s);
        if components(s).len() > 0 {
            let c = components(s)[0];
            assert(!c.contains('/'));
            if c == seq!['/'] {
                assert(c.contains('/')) by {
                    assert(c[0] == '/');
                }
            }
        }
    }
}

proof fn lemma_last_dot_facts(name: Seq<char>)
    ensures
        -1 <= last_dot(name) < name.len(),
        last_dot(name) >= 0 ==> name[last_dot(name)] == '.',
        forall|j: int| last_dot(name) < j < name.len() ==> name[j] != '.',
    decreases name.len(),
{
    if name.len() > 0 {
        let p = name.drop_last();
        lemma_last_dot_facts(p);
        if name.last() != '.' {
            assert forall|j: int| last_dot(name) < j < name.len() implies name[j] != '.' by {
                if j < p.len() {
                    assert(name[j] == p[j]);
                }
            }
        }
    }
}

/// An extension is what follows the last `.` of the file name, and that
/// dot is not the name's first character: the name is some non-empty stem,
/// a `.`, and the extension, which has no `.` in it.
pub proof fn lemma_extension_shape(s: Seq<char>)
    ensures
        extension(s) matches Some(e) ==> {
            &&& file_name(s) is Some
            &&& !e.contains('.')
            &&& exists|stem: Seq<char>|
                stem.len() > 0 && file_name(s)->0 == stem + seq!['.'] + e
        },
{
    if let Some(name) = file_name(s) {
        lemma_last_dot_facts(name);
        let i = last_dot(name);
        if i > 0 {
            let e = name.subrange(i + 1, name.len() as int);
            let stem = name.take(i);
            assert(name =~= stem + seq!['.'] + e);
            assert(!e.contains('.')) by {
                if e.contains('.') {
                    let j = choose|j: int| 0 <= j < e.len() && e[j] == '.';
                    assert(name[i + 1 + j] == '.');
                }
            }
        }
    }
}

fn is_named_piece(p: &String) -> (r: bool)
    ensures
        r == is_named_part(p@),
{
    let cs = chars_of(p.as_str());
    if cs.len() == 0 {
        return false;
    }
    if cs.len() == 1 && cs[0] == '.' {
        assert(p@ =~= seq!['.']);
        return false;
    }
    assert(p@ != seq!['.']) by {
        if p@ == seq!['.'] {
            assert(p@.len() == 1 && p@[0] == '.');
        }
    }
    true
}

fn named_pieces(parts: &Vec<String>) -> (r: Vec<String>)
    ensures
        r.deep_view() == named_parts(parts.deep_view()),
{
    let mut out: Vec<String> = Vec::new();
    let mut j: usize = 0;
    let ghost ps = parts.deep_view();
    assert(ps.take(0) =~= Seq::<Seq<char>>::empty());
    while j < parts.len()
        invariant
            ps == parts.deep_view(),
            j <= parts.len(),
            out.deep_view() == named_parts(ps.take(j as int)),
        decreases parts.len() - j,
    {
        assert(ps.take(j + 1).drop_last() =~= ps.take(j as int));
        assert(ps.take(j + 1).last() == parts[j as int]@);
        if is_named_piece(&parts[j]) {
            let ghost prev = out.deep_view();
            out.push(parts[j].clone());
            assert(out.deep_view() =~= prev.push(parts[j as int]@));
        }
        j = j + 1;
    }
    assert(ps.take(parts.len() as int) =~= ps);
    out
}

/// The components of `path`, each as its text, in order.
pub fn path_components(path: &str) -> (r: Vec<String>)
    ensures
        r.deep_view() == components(path@),
{
    let n = path.unicode_len();
    if str_starts_with_char(path, '/') {
        let rest = path.substring_char(1, n);
        assert(rest@ =~= path@.drop_first());
        let named = named_pieces(&split_str(rest, '/'));
        let mut out: Vec<String> = Vec::new();
        let root = String::from_str("/");
        proof {
            reveal_strlit("/");
        }
        assert(root@ =~= seq!['/']);
        out.push(root);
        let ghost head = out.deep_view();
        let mut named = named;
        let ghost tail = named.deep_view();
        out.append(&mut named);
        assert(out.deep_view() =~= head + tail);
        out
    } else if n > 0 && path.get_char(0) == '.' && (n == 1 || path.get_char(1) == '/') {
        let rest = path.substring_char(1, n);
        assert(rest@ =~= path@.drop_first());
        let named = named_pieces(&split_str(rest, '/'));
        let mut out: Vec<String> = Vec::new();
        let cur = String::from_str(".");
        proof {
            reveal_strlit(".");
        }
        assert(cur@ =~= seq!['.']);
        out.push(cur);
        let ghost head = out.deep_view();
        let mut named = named;
        let ghost tail = named.deep_view();
        out.append(&mut named);
        assert(out.deep_view() =~= head + tail);
        out
    } else {
        named_pieces(&split_str(path, '/'))
    }
}

/// The extension of `path`'s file name, when it has one.
pub fn path_extension(path: &str) -> (r: Option<String>)
    ensures
        r.is_some() == extension(path@).is_some(),
        r matches Some(e) ==> e@ == extension(path@).unwrap(),
{
    let comps = path_components(path);
    let k = comps.len();
    if k == 0 {
        return None;
    }
    let last = &comps[k - 1];
    let cs = chars_of(last.as_str());
    let m = cs.len();
    proof {
        assert(comps.deep_view().last() == last@);
    }
    if m == 1 && (cs[0] == '/' || cs[0] == '.') {
        assert(last@ =~= seq![cs[0]]);
        return None;
    }
    if m == 2 && cs[0] == '.' && cs[1] == '.' {
        assert(last@ =~= seq!['.', '.']);
        return None;
    }
    assert(file_name(path@) == Some(last@)) by {
        if last@ == seq!['/'] || last@ == seq!['.'] {
            assert(last@.len() == 1);
        }
        if last@ == seq!['.', '.'] {
            assert(last@.len() == 2);
        }
    }
    // the last dot of the name
    let mut i: usize = m;
    let ghost name = last@;
    assert(name.take(m as int) =~= name);
    while i > 0 && cs[i - 1] != '.'
        invariant
            cs@ == name,
            m == cs.len(),
            i <= m,
            last_dot(name) == last_dot(name.take(i as int)),
        decreases i,
    {
        assert(name.take(i as int).drop_last() =~= name.take(i - 1));
        i = i - 1;
    }
    if i == 0 {
        assert(name.take(0).len() == 0);
        return None;
    }
    assert(last_dot(name.take(i as int)) == i - 1);
    if i == 1 {
        return None;
    }
    let ext = String::from_str(last.as_str().substring_char(i, m));
    Some(ext)
}

} // verus!
