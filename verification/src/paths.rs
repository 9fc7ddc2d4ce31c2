//! Paths are kept as text, with `/` as the separator.
use vstd::prelude::*;
use vstd::string::*;

verus! {

/// The path that results from appending `name` to `base`.
///
/// A `name` that starts with `/` is an absolute path and takes the place of
/// `base`; otherwise `name` is added after `base`, with one `/` in between
/// unless `base` is empty or already ends with `/`.
pub open spec fn spec_push(base: Seq<char>, name: Seq<char>) -> Seq<char> {
    if name.len() > 0 && name[0] == '/' {
        name
    } else if base.len() == 0 || base[base.len() - 1] == '/' {
        base + name
    } else {
        base + seq!['/'] + name
    }
}

/// Appends `name` to the path `base`, as `spec_push` describes.
pub fn push_path(base: &str, name: &str) -> (r: String)
    ensures
        r@ == spec_push(base@, name@),
        name@.len() > 0 && name@[0] == '/' ==> r@ == name@,
        !(name@.len() > 0 && name@[0] == '/') ==> {
            &&& r@.len() == base@.len() + name@.len() + (if base@.len() == 0 || base@[base@.len() - 1] == '/' {
                0int
            } else {
                1int
            })
            &&& r@.subrange(0, base@.len() as int) == base@
            &&& r@.subrange(r@.len() - name@.len(), r@.len() as int) == name@
            &&& r@.len() > base@.len() + name@.len() ==> r@[base@.len() as int] == '/'
        },
{
    proof {
        law_push(base@, name@);
    }
    let name_len = name.unicode_len();
    if name_len > 0 && name.get_char(0) == '/' {
        return String::from_str(name);
    }
    let base_len = base.unicode_len();
    let mut out = String::from_str(base);
    if !(base_len == 0 || base.get_char(base_len - 1) == '/') {
        let sep = "/";
        proof {
            reveal_strlit("/");
        }
        out.append(sep);
    }
    out.append(name);
    out
}

/// The index of the last `.` in `s`, or -1 where there is none.
pub open spec fn last_dot(s: Seq<char>) -> int
    decreases s.len(),
{
    if s.len() == 0 {
        -1
    } else if s[s.len() - 1] == '.' {
        s.len() - 1
    } else {
        last_dot(s.subrange(0, s.len() - 1))
    }
}

/// The extension of the file name `name`: the text after its last `.`.
/// There is none where the name holds no `.`, where its only `.` leads it
/// (as in `.profile`), or where the name is `..`.
pub open spec fn extension(name: Seq<char>) -> Option<Seq<char>> {
    if name == seq!['.', '.'] || last_dot(name) <= 0 {
        None
    } else {
        Some(name.subrange(last_dot(name) + 1, name.len() as int))
    }
}

/// Whether the extension of `name` is one of `exts`.
pub open spec fn extension_listed(exts: Seq<Seq<char>>, name: Seq<char>) -> bool {
    extension(name) matches Some(x) && exts.contains(x)
}

/// The texts of a sequence of string slices.
pub open spec fn str_views(s: Seq<&str>) -> Seq<Seq<char>> {
    s.map_values(|x: &str| x@)
}

proof fn lemma_last_dot_bounds(s: Seq<char>)
    ensures
        -1 <= last_dot(s) < s.len(),
        last_dot(s) >= 0 ==> s[last_dot(s)] == '.',
    decreases s.len(),
{
    if s.len() > 0 {
        let init = s.subrange(0, s.len() - 1);
        lemma_last_dot_bounds(init);
    }
}

fn last_dot_index(s: &str) -> (r: Option<usize>)
    ensures
        r matches Some(i) ==> i == last_dot(s@),
        r is None ==> last_dot(s@) == -1,
{
    let n = s.unicode_len();
    let mut i: usize = n;
    proof {
        assert(s@.subrange(0, n as int) =~= s@);
    }
    while i > 0
        invariant
            i <= n,
            n == s@.len(),
            last_dot(s@) == last_dot(s@.subrange(0, i as int)),
        decreases i,
    {
        let ghost pre = s@.subrange(0, i as int);
        if s.get_char(i - 1) == '.' {
            return Some(i - 1);
        }
        proof {
            assert(pre.subrange(0, pre.len() - 1) =~= s@.subrange(0, i - 1));
        }
        i = i - 1;
    }
    None
}

/// Whether `name` from index `from` on reads `ext`.
fn tail_equals(name: &str, from: usize, ext: &str) -> (r: bool)
    requires
        from <= name@.len(),
    ensures
        r == (name@.subrange(from as int, name@.len() as int) == ext@),
{
    let n = name.unicode_len();
    let m = ext.unicode_len();
    if n - from != m {
        proof {
            assert(name@.subrange(from as int, n as int).len() != ext@.len());
        }
        return false;
    }
    let mut k: usize = 0;
    while k < m
        invariant
            k <= m,
            m == ext@.len(),
            n == name@.len(),
            n - from == m,
            forall|j: int| 0 <= j < k ==> name@[from + j] == ext@[j],
        decreases m - k,
    {
        if name.get_char(from + k) != ext.get_char(k) {
            proof {
                assert(name@.subrange(from as int, n as int)[k as int] != ext@[k as int]);
            }
            return false;
        }
        k = k + 1;
    }
    proof {
        assert(name@.subrange(from as int, n as int) =~= ext@);
    }
    true
}

/// Whether the extension of `name` is one of `exts`.
pub fn has_listed_extension(name: &str, exts: &[&str]) -> (r: bool)
    ensures
        r == extension_listed(str_views(exts@), name@),
{
    let n = name.unicode_len();
    if n == 2 && name.get_char(0) == '.' && name.get_char(1) == '.' {
        proof {
            assert(name@ =~= seq!['.', '.']);
        }
        return false;
    }
    proof {
        if name@ == seq!['.', '.'] {
            assert(name@[0] == '.' && name@[1] == '.');
        }
        lemma_last_dot_bounds(name@);
    }
    match last_dot_index(name) {
        None => false,
        Some(d) => {
            if d == 0 {
                return false;
            }
            let ghost x = name@.subrange(d + 1, n as int);
            let ghost es = str_views(exts@);
            let mut k: usize = 0;
            while k < exts.len()
                invariant
                    k <= exts@.len(),
                    es == str_views(exts@),
                    es.len() == exts@.len(),
                    forall|j: int| 0 <= j < k ==> es[j] != x,
                    d + 1 <= n,
                    n == name@.len(),
                    x == name@.subrange(d + 1, n as int),
                    extension(name@) == Some(x),
                decreases exts.len() - k,
            {
                if tail_equals(name, d + 1, exts[k]) {
                    proof {
                        assert(es[k as int] == exts@[k as int]@);
                        assert(es[k as int] == x);
                        assert(es.contains(x));
                    }
                    return true;
                }
                k = k + 1;
            }
            false
        },
    }
}

/// Appending a name to a path: an absolute name (one that starts with `/`)
/// is the result; any other name is added whole after the path, with one `/`
/// in between unless the path is empty or already ends with `/`. The result
/// always ends with the whole name.
pub proof fn law_push(base: Seq<char>, name: Seq<char>)
    ensures
        name.len() > 0 && name[0] == '/' ==> spec_push(base, name) == name,
        !(name.len() > 0 && name[0] == '/') ==> {
            let r = spec_push(base, name);
            &&& r.len() == base.len() + name.len() + (if base.len() == 0 || base[base.len() - 1] == '/' {
                0int
            } else {
                1int
            })
            &&& r.subrange(0, base.len() as int) == base
            &&& r.subrange(r.len() - name.len(), r.len() as int) == name
            &&& r.len() > base.len() + name.len() ==> r[base.len() as int] == '/'
        },
        spec_push(base, name).len() >= name.len(),
        spec_push(base, name).subrange(spec_push(base, name).len() - name.len(), spec_push(base, name).len() as int)
            == name,
{
    let r = spec_push(base, name);
    if !(name.len() > 0 && name[0] == '/') {
        assert(r.subrange(0, base.len() as int) =~= base);
        assert(r.subrange(r.len() - name.len(), r.len() as int) =~= name);
    } else {
        assert(r.subrange(0, r.len() as int) =~= name);
    }
}

proof fn lemma_last_dot_after(s: Seq<char>)
    ensures
        forall|i: int| last_dot(s) < i < s.len() ==> s[i] != '.',
    decreases s.len(),
{
    if s.len() > 0 {
        let init = s.subrange(0, s.len() - 1);
        lemma_last_dot_after(init);
        lemma_last_dot_bounds(init);
        lemma_last_dot_bounds(s);
        assert forall|i: int| last_dot(s) < i < s.len() implies s[i] != '.' by {
            if s[s.len() - 1] != '.' && i < s.len() - 1 {
                assert(s[i] == init[i]);
            }
        }
    }
}

/// The extension of a name, as the characters of the name show it: where
/// there is one, the name is a non-empty stem, a `.`, and the extension, which
/// holds no `.`; where there is none, the name is `..` or holds no `.` past its
/// first character.
pub proof fn law_extension(name: Seq<char>)
    ensures
        extension(name) matches Some(x) ==> {
            &&& name != seq!['.', '.']
            &&& x.len() + 1 < name.len()
            &&& name.subrange(name.len() - x.len(), name.len() as int) == x
            &&& name[name.len() - x.len() - 1] == '.'
            &&& forall|i: int| 0 <= i < x.len() ==> x[i] != '.'
        },
        extension(name) is None ==> (name == seq!['.', '.'] || forall|i: int| 0 < i < name.len() ==> name[i] != '.'),
{
    lemma_last_dot_bounds(name);
    lemma_last_dot_after(name);
    let d = last_dot(name);
    if let Some(x) = extension(name) {
        assert(name.subrange(name.len() - x.len(), name.len() as int) =~= x);
        assert forall|i: int| 0 <= i < x.len() implies x[i] != '.' by {
            assert(x[i] == name[d + 1 + i]);
        }
    }
}

} // verus!
