//! Paths as text, with `/` between their components.

use vstd::prelude::*;

use crate::text;

verus! {

/// Where the piece after the last `/` begins.
pub open spec fn last_piece(path: Seq<char>) -> int
    decreases path.len(),
{
    if path.len() == 0 || path.last() == '/' {
        path.len() as int
    } else {
        last_piece(path.drop_last())
    }
}

/// The final component: the last piece that is neither empty nor `.`, unless
/// that is `..` or there is none.
pub open spec fn file_name_text(path: Seq<char>) -> Option<Seq<char>>
    decreases path.len(),
{
    let at = last_piece(path);
    let piece = path.skip(at);
    if piece.len() == 0 || piece == seq!['.'] {
        if 0 < at <= path.len() {
            file_name_text(path.take(at - 1))
        } else {
            None
        }
    } else if piece == seq!['.', '.'] {
        None
    } else {
        Some(piece)
    }
}

/// `name` inside `dir`; a `name` that starts at the root stands alone.
pub open spec fn joined_path(dir: Seq<char>, name: Seq<char>) -> Seq<char> {
    if name.len() > 0 && name[0] == '/' {
        name
    } else if dir.len() == 0 || dir.last() == '/' {
        dir + name
    } else {
        dir.push('/') + name
    }
}

proof fn lemma_last_piece(path: Seq<char>, at: int)
    requires
        0 <= at <= path.len(),
        at > 0 ==> path[at - 1] == '/',
        forall|i: int| at <= i < path.len() ==> path[i] != '/',
    ensures
        last_piece(path) == at,
    decreases path.len(),
{
    if path.len() > at {
        lemma_last_piece(path.drop_last(), at);
    }
}

/// The final component of `path`, if it has one.
pub fn file_name(path: &str) -> (r: Option<String>)
    ensures
        r is Some <==> file_name_text(path@) is Some,
        r matches Some(name) ==> file_name_text(path@) == Some(name@),
{
    let cs = text::chars(path);
    let mut end: usize = cs.len();
    assert(path@.take(end as int) =~= path@);
    loop
        invariant
            cs@ == path@,
            end <= cs@.len(),
            file_name_text(path@) == file_name_text(path@.take(end as int)),
        decreases end,
    {
        let mut at: usize = end;
        while at > 0 && cs[at - 1] != '/'
            invariant
                at <= end <= cs@.len(),
                forall|i: int| at <= i < end ==> cs@[i] != '/',
            decreases at,
        {
            at = at - 1;
        }
        let ghost seen = path@.take(end as int);
        let ghost piece = seen.skip(at as int);
        proof {
            lemma_last_piece(seen, at as int);
            assert(piece =~= cs@.subrange(at as int, end as int));
        }
        if at == end || (end - at == 1 && cs[at] == '.') {
            assert(piece.len() == 1 ==> piece =~= seq!['.']);
            if at == 0 {
                return None;
            }
            assert(seen.take(at - 1) =~= path@.take(at - 1));
            end = at - 1;
        } else if end - at == 2 && cs[at] == '.' && cs[at + 1] == '.' {
            assert(piece =~= seq!['.', '.']);
            return None;
        } else {
            let mut out = String::new();
            for i in at..end
                invariant
                    end <= cs@.len(),
                    out@ == cs@.subrange(at as int, i as int),
            {
                out.push(cs[i]);
                assert(out@ =~= cs@.subrange(at as int, i + 1));
            }
            assert(piece != seq!['.']) by {
                if piece == seq!['.'] {
                    assert(piece[0] == '.');
                }
            }
            assert(piece != seq!['.', '.']) by {
                if piece == seq!['.', '.'] {
                    assert(piece[0] == '.' && piece[1] == '.');
                }
            }
            return Some(out);
        }
    }
}

/// `name` inside `dir`.
pub fn join(dir: &str, name: &str) -> (r: String)
    ensures
        r@ == joined_path(dir@, name@),
{
    let outer = text::chars(dir);
    let inner = text::chars(name);
    if inner.len() > 0 && inner[0] == '/' {
        return name.to_owned();
    }
    let mut out = dir.to_owned();
    if outer.len() > 0 && outer[outer.len() - 1] != '/' {
        out.push('/');
    }
    out.append(name);
    out
}

/// The name at the end of a path is the piece after its last slash, whatever is in
/// front of that.
pub proof fn the_last_piece_is_the_name(dir: Seq<char>, name: Seq<char>)
    requires
        name.len() > 0,
        name != seq!['.'],
        name != seq!['.', '.'],
        forall|i: int| 0 <= i < name.len() ==> #[trigger] name[i] != '/',
    ensures
        file_name_text(name) == Some(name),
        file_name_text(dir.push('/') + name) == Some(name),
{
    let path = dir.push('/') + name;
    lemma_last_piece(name, 0);
    lemma_last_piece(path, dir.len() as int + 1);
    assert(name.skip(0) =~= name);
    assert(path.skip(dir.len() as int + 1) =~= name);
}

/// Slashes at the end and pieces that stay where they are add nothing to a path's
/// name; a piece that goes up has no name, and neither has nothing at all.
pub proof fn what_adds_nothing_to_a_path(path: Seq<char>)
    ensures
        file_name_text(path.push('/')) == file_name_text(path),
        file_name_text(path.push('/').push('.')) == file_name_text(path),
        file_name_text(path.push('/').push('.').push('.')) is None,
        file_name_text(Seq::empty()) is None,
        file_name_text(seq!['.']) is None,
        file_name_text(seq!['.', '.']) is None,
{
    let n = path.len() as int;
    let slash = path.push('/');
    let here = slash.push('.');
    let up = here.push('.');
    lemma_last_piece(slash, n + 1);
    lemma_last_piece(here, n + 1);
    lemma_last_piece(up, n + 1);
    lemma_last_piece(seq!['.'], 0);
    lemma_last_piece(seq!['.', '.'], 0);
    assert(slash.skip(n + 1).len() == 0);
    assert(here.skip(n + 1) =~= seq!['.']);
    assert(up.skip(n + 1) =~= seq!['.', '.']);
    assert(up.skip(n + 1).len() == 2);
    assert(slash.take(n) =~= path);
    assert(here.take(n) =~= path);
    assert(seq!['.'].skip(0) =~= seq!['.']);
    assert(seq!['.', '.'].skip(0) =~= seq!['.', '.']);
    assert(seq!['.', '.'].skip(0).len() == 2);
}

/// A name inside a directory is the directory, a slash if it does not end in one,
/// and the name; one that starts at the root stands alone, and inside no directory
/// at all so does any.
pub proof fn a_name_goes_inside_its_directory(dir: Seq<char>, name: Seq<char>)
    ensures
        name.len() > 0 && name[0] == '/' ==> joined_path(dir, name) == name,
        joined_path(Seq::empty(), name) == name,
        dir.len() > 0 && !(name.len() > 0 && name[0] == '/') ==> {
            let slash = if dir.last() == '/' {
                0int
            } else {
                1
            };
            let path = joined_path(dir, name);
            &&& path.len() == dir.len() + slash + name.len()
            &&& path.take(dir.len() as int) == dir
            &&& path.skip(dir.len() + slash) == name
            &&& path[dir.len() + slash - 1] == '/'
        },
{
    let path = joined_path(dir, name);
    assert(Seq::<char>::empty() + name =~= name);
    if dir.len() > 0 && !(name.len() > 0 && name[0] == '/') {
        assert(path.take(dir.len() as int) =~= dir);
        if dir.last() == '/' {
            assert(path.skip(dir.len() as int) =~= name);
        } else {
            assert(path.skip(dir.len() as int + 1) =~= name);
        }
    }
}

} // verus!
