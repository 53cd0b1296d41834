//! Choosing what to restore.
use vstd::prelude::*;
use crate::index::{file_views, lists, shown, under, FileEntry, FileView, Index};
use crate::text::{chars_of, lex_less, string_of};

verus! {

/// Nothing in the index has the path.
#[derive(Debug, Clone, PartialEq, Eq)]
pub struct NotFound {
    pub path: String,
}

/// A path without the slashes at its end.
pub open spec fn without_slashes(path: Seq<char>) -> Seq<char>
    decreases path.len(),
{
    if path.len() > 0 && path.last() == '/' {
        without_slashes(path.drop_last())
    } else {
        path
    }
}

/// The prefix of everything in a folder.
pub open spec fn folder_prefix(path: Seq<char>) -> Seq<char> {
    without_slashes(path) + "/"@
}

/// The prefix of everything in a folder.
pub fn folder_of(path: &str) -> (r: String)
    ensures
        r@ == folder_prefix(path@),
{
    let chars = chars_of(path);
    let mut end: usize = chars.len();
    assert(chars@.subrange(0, end as int) =~= path@);
    while end > 0 && chars[end - 1] == '/'
        invariant
            end <= chars@.len(),
            without_slashes(chars@.subrange(0, end as int)) == without_slashes(path@),
        decreases end,
    {
        assert(chars@.subrange(0, end as int).drop_last() =~= chars@.subrange(0, end - 1));
        end -= 1;
    }
    let mut r = string_of(&chars, 0, end);
    r.append("/");
    r
}

/// The prefix of everything in a folder is its path up to the last character that is not a slash,
/// and one slash.
pub proof fn folder_prefix_ends_the_name(path: Seq<char>, end: int)
    requires
        0 <= end <= path.len(),
        end > 0 ==> path[end - 1] != '/',
        forall|i: int| end <= i < path.len() ==> #[trigger] path[i] == '/',
    ensures
        folder_prefix(path) == path.subrange(0, end).push('/'),
    decreases path.len(),
{
    reveal_strlit("/");
    if end < path.len() {
        assert(path[path.len() - 1] == '/');
        folder_prefix_ends_the_name(path.drop_last(), end);
        assert(path.drop_last().subrange(0, end) =~= path.subrange(0, end));
    } else {
        assert(path.subrange(0, end) =~= path);
        assert(folder_prefix(path) =~= path.push('/'));
    }
}

/// What a restoration of a folder lists: a file just if it is present and its path is that of the
/// folder, a slash, and more. A folder whose name merely begins the same gives nothing. What is
/// listed is what the index has, in the order of the paths.
pub proof fn folder_restores_its_files(
    list: Seq<FileView>,
    files: Map<Seq<char>, FileView>,
    path: Seq<char>,
    end: int,
)
    requires
        forall|p: Seq<char>| #[trigger] files.dom().contains(p) ==> files[p].path == p,
        lists(list, files, under(folder_prefix(path), false), shown(true)),
        0 <= end <= path.len(),
        end > 0 ==> path[end - 1] != '/',
        forall|i: int| end <= i < path.len() ==> #[trigger] path[i] == '/',
    ensures
        forall|i: int|
            0 <= i < list.len() ==> {
                let p = (#[trigger] list[i]).path;
                &&& files.dom().contains(p) && list[i] == files[p] && !list[i].deleted
                &&& p.len() > end && p.subrange(0, end) == path.subrange(0, end) && p[end] == '/'
            },
        forall|p: Seq<char>| #[trigger]
            files.dom().contains(p) && !files[p].deleted && p.len() > end && p.subrange(0, end)
                == path.subrange(0, end) && p[end] == '/' ==> list.contains(files[p]),
        forall|i: int, j: int|
            #![trigger list[i], list[j]]
            0 <= i < j < list.len() ==> lex_less(list[i].path, list[j].path),
{
    let prefix = folder_prefix(path);
    let name = path.subrange(0, end);
    folder_prefix_ends_the_name(path, end);
    assert forall|i: int| 0 <= i < list.len() implies ({
        let p = (#[trigger] list[i]).path;
        &&& files.dom().contains(p) && list[i] == files[p] && !list[i].deleted
        &&& p.len() > end && p.subrange(0, end) == name && p[end] == '/'
    }) by {
        let p = list[i].path;
        assert(prefix.is_prefix_of(p));
        assert(p.subrange(0, end + 1) == prefix);
        assert(p[end] == prefix[end]);
        assert(p.subrange(0, end) =~= prefix.subrange(0, end));
        assert(prefix.subrange(0, end) =~= name);
    }
    assert forall|p: Seq<char>| #[trigger]
        files.dom().contains(p) && !files[p].deleted && p.len() > end && p.subrange(0, end) == name
            && p[end] == '/' implies list.contains(files[p]) by {
        assert(p.subrange(0, end + 1) =~= p.subrange(0, end).push(p[end]));
        assert(prefix.is_prefix_of(p));
        assert(under(prefix, false)(files[p]));
        let i = choose|i: int| 0 <= i < list.len() && (#[trigger] list[i]).path == p;
        assert(list[i] == files[p]);
    }
}

/// Whether a path is that of a file that is present.
pub open spec fn is_present(files: Map<Seq<char>, FileView>, path: Seq<char>) -> bool {
    files.dom().contains(path) && !files[path].deleted
}

/// Whether a folder has a file that is present.
pub open spec fn has_files(files: Map<Seq<char>, FileView>, prefix: Seq<char>) -> bool {
    exists|path: Seq<char>| #[trigger]
        files.dom().contains(path) && under(prefix, false)(files[path])
}

/// What a restoration of a path covers: the file with exactly that path if it is present, else
/// every present file in the folder of that name, in the order of the paths.
pub fn get(index: &Index, remote: &str) -> (r: Result<Vec<FileEntry>, NotFound>)
    requires
        index.wf(),
    ensures
        if is_present(index@.files, remote@) {
            r is Ok && file_views(r->Ok_0@) == seq![index@.files[remote@]]
        } else if has_files(index@.files, folder_prefix(remote@)) {
            r is Ok && r->Ok_0@.len() > 0 && lists(
                file_views(r->Ok_0@),
                index@.files,
                under(folder_prefix(remote@), false),
                shown(true),
            )
        } else {
            r is Err && r->Err_0.path@ == remote@
        },
        index@.files.dom().contains(remote@) && !index@.files[remote@].deleted ==> r is Ok
            && file_views(r->Ok_0@) == seq![index@.files[remote@]],
        r is Err <==> !(index@.files.dom().contains(remote@) && !index@.files[remote@].deleted)
            && forall|path: Seq<char>| #[trigger]
            index@.files.dom().contains(path) && folder_prefix(remote@).is_prefix_of(path)
                ==> index@.files[path].deleted,
        r is Ok ==> forall|i: int|
            0 <= i < r->Ok_0@.len() ==> !(#[trigger] r->Ok_0@[i]).deleted
                && index@.files.dom().contains(r->Ok_0@[i].path@) && r->Ok_0@[i]@
                == index@.files[r->Ok_0@[i].path@],
{
    proof {
        index.is_sound();
    }
    if let Some(file) = index.get_file(remote) {
        if !file.deleted {
            let targets = vec![file];
            assert(file_views(targets@) =~= seq![index@.files[remote@]]);
            assert(targets@[0]@ == index@.files[remote@]);
            return Ok(targets);
        }
    }
    let prefix = folder_of(remote);
    let listed = index.list_with_chunks(prefix.as_str());
    proof {
        let list = file_views(listed@);
        if list.len() > 0 {
            assert(index@.files.dom().contains(list[0].path));
            assert(has_files(index@.files, prefix@));
        }
        if has_files(index@.files, prefix@) {
            let path = choose|path: Seq<char>| #[trigger]
                index@.files.dom().contains(path) && under(prefix@, false)(index@.files[path]);
            assert(index@.files.dom().contains(path) && under(prefix@, false)(index@.files[path]));
            assert(list.len() > 0);
        }
    }
    assert forall|i: int| 0 <= i < listed@.len() implies !(#[trigger] listed@[i]).deleted
        && index@.files.dom().contains(listed@[i].path@) && listed@[i]@
        == index@.files[listed@[i].path@] by {
        assert(file_views(listed@)[i] == listed@[i]@);
    }
    if listed.len() == 0 {
        return Err(NotFound { path: remote.to_owned() });
    }
    Ok(listed)
}

/// A folder has something to restore just if a listing of what is present in it is not empty. A
/// file is there just if it is in the listing of what is present and begins as it does.
pub proof fn what_is_listed_is_there(
    list: Seq<FileView>,
    files: Map<Seq<char>, FileView>,
    path: Seq<char>,
)
    requires
        forall|p: Seq<char>| #[trigger] files.dom().contains(p) ==> files[p].path == p,
        lists(list, files, under(path, false), shown(true)),
    ensures
        has_files(files, path) <==> list.len() > 0,
        is_present(files, path) <==> exists|i: int|
            0 <= i < list.len() && (#[trigger] list[i]).path == path,
{
    if list.len() > 0 {
        assert(files.dom().contains(list[0].path));
        assert(under(path, false)(files[list[0].path]));
    }
    if has_files(files, path) {
        let p = choose|p: Seq<char>| #[trigger]
            files.dom().contains(p) && under(path, false)(files[p]);
        let i = choose|i: int| 0 <= i < list.len() && (#[trigger] list[i]).path == p;
        assert(0 <= i < list.len());
    }
    if is_present(files, path) {
        assert(path.is_prefix_of(path));
        assert(under(path, false)(files[path]));
    }
}

} // verus!
