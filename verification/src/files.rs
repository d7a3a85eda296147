//! Naming and listing the files of subjects: each subject lives in
//! `<lowercased name>.json` in the grades directory, and the subjects of the
//! directory are the stems of its `.json` files, in sorted order.
use vstd::prelude::*;
use vstd::string::StringSliceAdditionalSpecFns;
use crate::order::{is_sorted, sort_names, views};
use crate::seqs::{chars_of, last_index, lemma_last_index, rfind_char};
use crate::text::{back_white_exec, lemma_back_white, lemma_skip_white, skip_white_exec, trimmed};

verus! {

/// What `str::to_lowercase` makes of a text (Unicode `Lowercase` mapping).
pub uninterp spec fn lowercase(s: Seq<char>) -> Seq<char>;

/// The path `file` joined onto the directory `dir`, as `Path::join` builds it
/// with the path rules of the platform the library is built for.
pub uninterp spec fn path_joined(dir: Seq<char>, file: Seq<char>) -> Seq<char>;

/// Calls `str::to_lowercase`. The contract names its result by `lowercase`
/// and says nothing more of it: the Unicode mapping it applies is not stated.
#[verifier::external_body]
fn to_lowercase(s: &str) -> (r: String)
    ensures
        r@ == lowercase(s@),
{
    s.to_lowercase()
}

/// Calls `Path::join` on `dir` and `file` and turns the result back into text.
/// The contract names the result by `path_joined`; how a separator is put
/// between the two, and that an absolute `file` replaces `dir`, is not stated.
#[verifier::external_body]
fn join_path(dir: &str, file: &str) -> (r: String)
    ensures
        r@ == path_joined(dir@, file@),
{
    std::path::Path::new(dir).join(file).to_string_lossy().into_owned()
}

/// The name of the file that holds the subject `name`: its name in small
/// letters with `.json` after it.
pub open spec fn subject_file_name(name: Seq<char>) -> Seq<char> {
    lowercase(name) + ".json"@
}

/// The path of the file of subject `name` in the directory `dir`.
pub fn subject_path(dir: &str, name: &str) -> (r: String)
    ensures
        r@ == path_joined(dir@, subject_file_name(name@)),
{
    let mut file = to_lowercase(name);
    file.append(".json");
    join_path(dir, file.as_str())
}

/// The characters `json`.
pub open spec fn json_extension() -> Seq<char> {
    seq!['j', 's', 'o', 'n']
}

/// The stem of the file name `f` when its extension is `json`. As `Path`
/// splits a file name, the extension is what follows the last `.`, unless that
/// `.` is the first character; the stem is what comes before it.
pub open spec fn json_stem_of(f: Seq<char>) -> Option<Seq<char>> {
    match last_index(f, '.', 0) {
        Some(p) => if p > 0 && f.subrange(p + 1, f.len() as int) == json_extension() {
            Some(f.subrange(0, p))
        } else {
            None
        },
        None => None,
    }
}

/// The stem of a file name whose extension is `json`, `None` for any other name.
pub fn json_stem(file_name: &str) -> (r: Option<String>)
    ensures
        match r {
            Some(t) => json_stem_of(file_name@) == Some(t@),
            None => json_stem_of(file_name@) is None,
        },
{
    let s = chars_of(file_name);
    let p = match rfind_char(&s, '.', 0) {
        Some(p) => p,
        None => return None,
    };
    proof {
        lemma_last_index(s@, '.', 0, s@.len() as int);
    }
    if p == 0 || s.len() - p != 5 {
        proof {
            if p > 0 {
                assert(file_name@.subrange(p + 1, file_name@.len() as int).len() != 4);
            }
        }
        return None;
    }
    if s[p + 1] == 'j' && s[p + 2] == 's' && s[p + 3] == 'o' && s[p + 4] == 'n' {
        proof {
            assert(file_name@.subrange(p + 1, file_name@.len() as int) =~= json_extension());
        }
        Some(file_name.substring_char(0, p).to_owned())
    } else {
        proof {
            let ext = file_name@.subrange(p + 1, file_name@.len() as int);
            if ext == json_extension() {
                assert(ext[0] == 'j' && ext[1] == 's' && ext[2] == 'o' && ext[3] == 'n');
            }
        }
        None
    }
}

/// The file of a subject is listed under its name in small letters: its
/// extension is `json` and its stem is `lowercase(name)` whenever that is not
/// empty, whatever characters it holds; a directory listing that file lists
/// that stem.
pub proof fn lemma_subject_file_stem(name: Seq<char>)
    requires
        lowercase(name).len() > 0,
    ensures
        json_stem_of(subject_file_name(name)) == Some(lowercase(name)),
        json_stems(seq![subject_file_name(name)]) == seq![lowercase(name)],
{
    let l = lowercase(name);
    let f = subject_file_name(name);
    let p = l.len() as int;
    reveal_strlit(".json");
    assert(f[p] == '.');
    assert forall|j: int| p < j < f.len() implies #[trigger] f[j] != '.' by {}
    crate::seqs::lemma_last_index_at(f, '.', 0, f.len() as int, p);
    assert(f.subrange(p + 1, f.len() as int) =~= json_extension());
    assert(f.subrange(0, p) =~= l);
    let one = seq![f];
    assert(one.drop_last() =~= Seq::<Seq<char>>::empty());
    assert(one.last() == f);
    assert(json_stems(Seq::<Seq<char>>::empty()) == Seq::<Seq<char>>::empty());
    assert(json_stems(one) == json_stems(one.drop_last()).push(l));
    assert(seq![l] =~= Seq::<Seq<char>>::empty().push(l));
}

/// The stems of the names of `fs` whose extension is `json`, in the order of `fs`.
pub open spec fn json_stems(fs: Seq<Seq<char>>) -> Seq<Seq<char>>
    decreases fs.len(),
{
    if fs.len() == 0 {
        seq![]
    } else {
        let rest = json_stems(fs.drop_last());
        match json_stem_of(fs.last()) {
            Some(t) => rest.push(t),
            None => rest,
        }
    }
}

/// A name has a `json` extension.
pub open spec fn has_json_stem(f: Seq<char>) -> bool {
    json_stem_of(f) is Some
}

/// One more file in a directory adds its stem at the end when its extension is
/// `json`, whatever came before, and adds nothing otherwise.
pub proof fn lemma_json_stems_push(fs: Seq<Seq<char>>, f: Seq<char>)
    ensures
        json_stems(fs.push(f)) == match json_stem_of(f) {
            Some(t) => json_stems(fs).push(t),
            None => json_stems(fs),
        },
{
    assert(fs.push(f).drop_last() =~= fs);
    assert(fs.push(f).last() == f);
}

/// The stems are those of exactly the names with a `json` extension, in their
/// order: one stem for each such name, so there are as many as there are such
/// names.
pub proof fn lemma_json_stems_filter(fs: Seq<Seq<char>>)
    ensures
        json_stems(fs) == fs.filter(|f: Seq<char>| has_json_stem(f)).map_values(
            |f: Seq<char>| json_stem_of(f).unwrap(),
        ),
        json_stems(fs).len() == fs.filter(|f: Seq<char>| has_json_stem(f)).len(),
    decreases fs.len(),
{
    let p = |f: Seq<char>| has_json_stem(f);
    let g = |f: Seq<char>| json_stem_of(f).unwrap();
    if fs.len() == 0 {
        reveal(Seq::filter);
        assert(fs.filter(p) =~= Seq::<Seq<char>>::empty());
        assert(fs.filter(p).map_values(g) =~= Seq::<Seq<char>>::empty());
    } else {
        let init = fs.drop_last();
        let f = fs.last();
        lemma_json_stems_filter(init);
        assert(init.push(f) =~= fs);
        lemma_json_stems_push(init, f);
        init.lemma_filter_push(f, p);
        if p(f) {
            assert(init.filter(p).push(f).map_values(g) =~= init.filter(p).map_values(g).push(
                g(f),
            ));
        }
    }
}

/// The subjects of a directory, given the names of its files: the stems of the
/// `.json` files, sorted, each as often as it occurs.
pub fn subject_names(file_names: &Vec<String>) -> (r: Vec<String>)
    ensures
        is_sorted(views(r@)),
        views(r@).to_multiset() == json_stems(views(file_names@)).to_multiset(),
        views(r@).to_multiset() == views(file_names@).filter(|f: Seq<char>| has_json_stem(f)).map_values(
            |f: Seq<char>| json_stem_of(f).unwrap(),
        ).to_multiset(),
        r@.len() == views(file_names@).filter(|f: Seq<char>| has_json_stem(f)).len(),
{
    proof {
        lemma_json_stems_filter(views(file_names@));
    }
    let mut stems: Vec<String> = Vec::new();
    let mut i: usize = 0;
    while i < file_names.len()
        invariant
            i <= file_names.len(),
            views(stems@) == json_stems(views(file_names@).take(i as int)),
        decreases file_names.len() - i,
    {
        let ghost before = stems@;
        proof {
            assert(views(file_names@).take(i + 1).drop_last() =~= views(file_names@).take(i as int));
            assert(views(file_names@).take(i + 1).last() == file_names@[i as int]@);
        }
        match json_stem(file_names[i].as_str()) {
            Some(t) => {
                stems.push(t);
                proof {
                    assert(views(stems@) =~= views(before).push(stems@.last()@));
                }
            },
            None => {},
        }
        i = i + 1;
    }
    proof {
        assert(views(file_names@).take(file_names.len() as int) =~= views(file_names@));
    }
    let r = sort_names(stems);
    proof {
        let stems_of = json_stems(views(file_names@));
        views(r@).to_multiset_ensures();
        stems_of.to_multiset_ensures();
        assert(views(r@).len() == r@.len());
    }
    r
}

/// The name of a new subject as it is typed: without white space around it,
/// and `None` when nothing is left.
pub fn new_subject_name(input: &str) -> (r: Option<String>)
    ensures
        match r {
            Some(t) => t@ == trimmed(input@, 0, input@.len() as int) && t@.len() > 0,
            None => trimmed(input@, 0, input@.len() as int).len() == 0,
        },
{
    let s = chars_of(input);
    let a = skip_white_exec(&s, 0, s.len());
    let b = back_white_exec(&s, a, s.len());
    proof {
        lemma_skip_white(s@, 0, s@.len() as int);
        lemma_back_white(s@, a as int, s@.len() as int);
    }
    if a == b {
        None
    } else {
        Some(input.substring_char(a, b).to_owned())
    }
}

} // verus!
