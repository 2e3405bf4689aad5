use vstd::prelude::*;

use crate::chars::{push_char, texts_view, to_chars};
use crate::text::{last_index, last_index_exec, lemma_last_index, subvec};

verus! {

/// What `std::path::Path::file_name` gives for a path written as `path`:
/// its last component, as text, if it has one.
pub uninterp spec fn path_file_name(path: Seq<char>) -> Option<Seq<char>>;

/// Whether `std::path::Path` compares the paths written `a` and `b` equal
/// (component by component).
pub uninterp spec fn same_path(a: Seq<char>, b: Seq<char>) -> bool;

/// A single path component that names an entry of a folder: not empty, no
/// `/` (a separator on every platform), and neither `.` nor `..`.
pub open spec fn single_component(name: Seq<char>) -> bool {
    &&& name.len() > 0
    &&& !name.contains('/')
    &&& name != seq!['.']
    &&& name != seq!['.', '.']
}

/// Last component of a path; a wrapper of `Path::file_name` (with
/// `OsStr::to_str`, which cannot fail on a component of a UTF-8 path). The
/// contract names the result, and states what `file_name` documents of it:
/// it is the final component when that is a normal name (`None` for a path
/// ending in `..`), so it holds no separator and is neither `.` nor `..`.
#[verifier::external_body]
fn file_name_of(path: &str) -> (r: Option<String>)
    ensures
        match r {
            Some(n) => path_file_name(path@) == Some(n@),
            None => path_file_name(path@) is None,
        },
        r matches Some(n) ==> single_component(n@),
{
    match std::path::Path::new(path).file_name() {
        Some(name) => match name.to_str() {
            Some(s) => Some(s.to_string()),
            None => None,
        },
        None => None,
    }
}

/// Whether two paths are equal as `Path`s; a wrapper of `Path`'s `==`. Its
/// documented `Eq` makes a path equal to itself; nothing else is stated.
#[verifier::external_body]
fn paths_equal(a: &str, b: &str) -> (r: bool)
    ensures
        r == same_path(a@, b@),
        a@ == b@ ==> r,
{
    std::path::Path::new(a) == std::path::Path::new(b)
}

/// Label of an attachment: its file name, or the whole path when it has none.
pub fn attachment_label(path: &str) -> (r: String)
    ensures
        r@ == match path_file_name(path@) {
            Some(n) => n,
            None => path@,
        },
{
    match file_name_of(path) {
        Some(n) => n,
        None => String::from_str(path),
    }
}

/// Name shown and sent for a media whose path has the last component
/// `file_name`: that name (`fichier` when there is none), or `<name>.zip` for
/// a folder (`dossier` when there is none).
pub open spec fn name_for(file_name: Option<Seq<char>>, is_dir: bool) -> Seq<char> {
    if is_dir {
        let base = match file_name {
            Some(n) => n,
            None => "dossier"@,
        };
        base + ".zip"@
    } else {
        match file_name {
            Some(n) => n,
            None => "fichier"@,
        }
    }
}

/// Name shown and sent for the media at `path`.
pub open spec fn media_name(path: Seq<char>, is_dir: bool) -> Seq<char> {
    name_for(path_file_name(path), is_dir)
}

/// The view of an optional text.
pub open spec fn opt_name(o: Option<String>) -> Option<Seq<char>> {
    match o {
        Some(s) => Some(s@),
        None => None,
    }
}

/// Name of a media given the last component of its path, if any.
pub fn display_name_from(file_name: Option<String>, is_dir: bool) -> (r: String)
    ensures
        r@ == name_for(opt_name(file_name), is_dir),
{
    let name = match file_name {
        Some(n) => n,
        None => if is_dir {
            String::from_str("dossier")
        } else {
            String::from_str("fichier")
        },
    };
    if is_dir {
        let mut r = name;
        r.append(".zip");
        r
    } else {
        name
    }
}

/// Name of a media: the file name, or `<folder>.zip` for a folder.
pub fn media_display_name(path: &str, is_dir: bool) -> (r: String)
    ensures
        r@ == media_name(path@, is_dir),
{
    display_name_from(file_name_of(path), is_dir)
}

/// `paths` added to `target` in order, each unless `target` already holds a
/// path equal to it.
pub open spec fn with_unique_paths(target: Seq<Seq<char>>, paths: Seq<Seq<char>>) -> Seq<Seq<char>>
    decreases paths.len(),
{
    if paths.len() == 0 {
        target
    } else {
        let t = with_unique_paths(target, paths.drop_last());
        if exists|k: int| 0 <= k < t.len() && same_path(#[trigger] t[k], paths.last()) {
            t
        } else {
            t.push(paths.last())
        }
    }
}

/// Position in `list` of a path equal to `p`, if there is one.
fn find_path(list: &Vec<String>, p: &str) -> (r: Option<usize>)
    ensures
        match r {
            Some(j) => j < list@.len() && same_path(list@[j as int]@, p@),
            None => forall|k: int| 0 <= k < list@.len() ==> !same_path(#[trigger] list@[k]@, p@),
        },
{
    let mut j: usize = 0;
    while j < list.len()
        invariant
            j <= list@.len(),
            forall|k: int| 0 <= k < j ==> !same_path(#[trigger] list@[k]@, p@),
        decreases list@.len() - j,
    {
        if paths_equal(list[j].as_str(), p) {
            return Some(j);
        }
        j = j + 1;
    }
    None
}

/// Adds each path to `target` unless it is already there.
pub fn push_unique_paths(target: &mut Vec<String>, paths: Vec<String>)
    ensures
        texts_view(final(target)@) == with_unique_paths(texts_view(old(target)@), texts_view(paths@)),
{
    let ghost start = texts_view(target@);
    let ghost pv = texts_view(paths@);
    let mut i: usize = 0;
    proof {
        assert(pv.take(0) =~= Seq::<Seq<char>>::empty());
    }
    while i < paths.len()
        invariant
            i <= paths@.len(),
            pv == texts_view(paths@),
            texts_view(target@) == with_unique_paths(start, pv.take(i as int)),
        decreases paths@.len() - i,
    {
        proof {
            assert(pv.take(i + 1).drop_last() =~= pv.take(i as int));
            assert(pv.take(i + 1).last() == paths@[i as int]@);
        }
        let found = find_path(target, paths[i].as_str());
        let ghost t = texts_view(target@);
        if found.is_none() {
            proof {
                assert forall|k: int| 0 <= k < t.len() implies !same_path(#[trigger] t[k], paths@[i as int]@) by {
                    assert(t[k] == target@[k]@);
                }
            }
            target.push(paths[i].clone());
            proof {
                assert(texts_view(target@) =~= t.push(paths@[i as int]@));
            }
        } else {
            proof {
                let j = found->Some_0;
                assert(t[j as int] == target@[j as int]@);
            }
        }
        i = i + 1;
    }
    proof {
        assert(pv.take(i as int) =~= pv);
    }
}

/// The decimal digits of `n`.
pub open spec fn decimal_text(n: nat) -> Seq<char>
    decreases n,
{
    if n < 10 {
        seq![(n + '0' as nat) as char]
    } else {
        decimal_text(n / 10) + seq![((n % 10) + '0' as nat) as char]
    }
}

/// `n` written in decimal.
pub fn decimal_string(n: u64) -> (r: String)
    ensures
        r@ == decimal_text(n as nat),
    decreases n,
{
    let digit = ((n % 10) as u8 + 48u8) as char;
    if n < 10 {
        let mut r = String::new();
        push_char(&mut r, digit);
        proof {
            assert(r@ =~= seq![(n + '0' as nat) as char]);
        }
        r
    } else {
        let mut r = decimal_string(n / 10);
        push_char(&mut r, digit);
        r
    }
}

/// The `n`-th name tried for storing a download whose (last) file name is
/// `safe`: the name itself for `n = 0`, then `stem (n).ext`.
pub open spec fn candidate_name(safe: Seq<char>, n: nat) -> Seq<char> {
    if n == 0 {
        safe
    } else {
        let dot = last_index(safe, '.');
        if dot < 0 {
            safe + seq![' ', '('] + decimal_text(n) + seq![')']
        } else {
            safe.take(dot) + seq![' ', '('] + decimal_text(n) + seq![')'] + safe.skip(dot)
        }
    }
}

/// The last component of a file name received from the network, or
/// `fichier` when it has none.
pub open spec fn safe_name(file_name: Option<Seq<char>>) -> Seq<char> {
    match file_name {
        Some(f) => f,
        None => "fichier"@,
    }
}

/// The file name a download is stored under when `n` earlier candidates
/// were taken: the last component of `filename` (`fichier` when it has
/// none), then `stem (n).ext` for `n > 0`.
pub open spec fn destination_name_of(filename: Seq<char>, n: nat) -> Seq<char> {
    candidate_name(safe_name(path_file_name(filename)), n)
}

/// The `n`-th candidate name, given the last component of the file name
/// received, if any.
pub fn candidate_from(file_name: Option<String>, n: u64) -> (r: String)
    ensures
        r@ == candidate_name(safe_name(opt_name(file_name)), n as nat),
{
    let safe = match file_name {
        Some(f) => f,
        None => String::from_str("fichier"),
    };
    if n == 0 {
        return safe;
    }
    let chars = to_chars(safe.as_str());
    let number = decimal_string(n);
    let open = String::from_str(" (");
    proof {
        reveal_strlit(" (");
        reveal_strlit(")");
    }
    match last_index_exec(&chars, chars.len(), '.') {
        None => {
            let mut r = safe;
            r.append(open.as_str());
            r.append(number.as_str());
            r.append(")");
            proof {
                assert(chars@.take(chars@.len() as int) =~= chars@);
                assert(" ("@ =~= seq![' ', '(']);
                assert(")"@ =~= seq![')']);
            }
            r
        },
        Some(dot) => {
            proof {
                assert(chars@.take(chars@.len() as int) =~= chars@);
                lemma_last_index(chars@, '.');
            }
            let mut r = crate::chars::string_of(chars.as_slice(), 0, dot);
            r.append(open.as_str());
            r.append(number.as_str());
            r.append(")");
            let ext = crate::chars::string_of(chars.as_slice(), dot, chars.len());
            r.append(ext.as_str());
            proof {
                assert(" ("@ =~= seq![' ', '(']);
                assert(")"@ =~= seq![')']);
                assert(chars@.subrange(0, dot as int) =~= chars@.take(dot as int));
                assert(chars@.subrange(dot as int, chars@.len() as int) =~= chars@.skip(dot as int));
            }
            r
        },
    }
}

/// The `n`-th candidate name for storing a downloaded file (`n = 0` is the
/// file name itself); the caller takes the first one that is free. It is
/// always a single path component, so the file stays in the folder.
pub fn destination_name(filename: &str, n: u64) -> (r: String)
    ensures
        r@ == destination_name_of(filename@, n as nat),
        single_component(r@),
{
    let name = file_name_of(filename);
    proof {
        lemma_safe_name_single(opt_name(name));
        lemma_candidate_single(safe_name(opt_name(name)), n as nat);
    }
    candidate_from(name, n)
}

proof fn lemma_safe_name_single(file_name: Option<Seq<char>>)
    requires
        file_name matches Some(f) ==> single_component(f),
    ensures
        single_component(safe_name(file_name)),
{
    reveal_strlit("fichier");
    let f = "fichier"@;
    if file_name is None {
        assert(f.len() == 7);
        if f.contains('/') {
            let k = choose|k: int| 0 <= k < f.len() && f[k] == '/';
            assert(f[k] != '/');
        }
    }
}

proof fn lemma_candidate_single(safe: Seq<char>, n: nat)
    requires
        single_component(safe),
    ensures
        single_component(candidate_name(safe, n)),
{
    if n > 0 {
        let r = candidate_name(safe, n);
        let d = decimal_text(n);
        lemma_decimal_digits(n);
        let dot = last_index(safe, '.');
        lemma_last_index(safe, '.');
        let stem = if dot < 0 { safe } else { safe.take(dot) };
        let ext = if dot < 0 { Seq::<char>::empty() } else { safe.skip(dot) };
        assert(r =~= stem + seq![' ', '('] + d + seq![')'] + ext);
        assert(r.len() >= 4);
        assert forall|k: int| 0 <= k < r.len() implies r[k] != '/' by {
            if k < stem.len() {
                assert(r[k] == safe[k]);
            } else if k < stem.len() + 2 {
            } else if k < stem.len() + 2 + d.len() {
                assert(r[k] == d[k - stem.len() - 2]);
            } else if k == stem.len() + 2 + d.len() {
            } else {
                assert(r[k] == ext[k - stem.len() - 3 - d.len()]);
                assert(ext[k - stem.len() - 3 - d.len()] == safe[k - stem.len() - 3 - d.len() + dot]);
            }
            if safe.contains('/') {
            }
        }
        assert(!r.contains('/'));
    }
}

/// Candidate `n` is the first name for `filename` that is not taken.
pub open spec fn first_free(filename: Seq<char>, taken: Seq<Seq<char>>, n: nat) -> bool {
    &&& !taken.contains(destination_name_of(filename, n))
    &&& forall|m: nat| m < n ==> taken.contains(#[trigger] destination_name_of(filename, m))
}

/// When the first `k` candidate names are all taken, there are at least `k`
/// taken names.
proof fn lemma_taken_candidates(filename: Seq<char>, taken: Seq<Seq<char>>, k: nat)
    requires
        forall|m: nat| m < k ==> taken.contains(#[trigger] destination_name_of(filename, m)),
    ensures
        k <= taken.len(),
{
    let x = vstd::set_lib::set_int_range(0, k as int);
    let f = |i: int| destination_name_of(filename, i as nat);
    vstd::set_lib::lemma_int_range(0, k as int);
    assert(vstd::relations::injective_on(f, x)) by {
        assert forall|a: int, b: int| x.contains(a) && x.contains(b) && #[trigger] f(a) == #[trigger] f(b) implies a == b by {
            if a != b {
                destination_names_differ(filename, a as nat, b as nat);
            }
        }
    }
    let y = x.map(f);
    vstd::set_lib::lemma_map_size(x, y, f);
    assert(y.subset_of(taken.to_set())) by {
        assert forall|v: Seq<char>| y.contains(v) implies taken.to_set().contains(v) by {
            let i = choose|i: int| x.contains(i) && f(i) == v;
            assert(taken.contains(destination_name_of(filename, i as nat)));
        }
    }
    taken.lemma_cardinality_of_set();
    vstd::set_lib::lemma_len_subset(y, taken.to_set());
}

/// Whether `name` is among `names`.
fn listed(names: &[String], name: &str) -> (r: bool)
    ensures
        r == texts_view(names@).contains(name@),
{
    let mut k: usize = 0;
    while k < names.len()
        invariant
            k <= names@.len(),
            forall|j: int| 0 <= j < k ==> names@[j]@ != name@,
        decreases names@.len() - k,
    {
        if crate::chars::text_eq(names[k].as_str(), name) {
            proof {
                assert(texts_view(names@)[k as int] == name@);
            }
            return true;
        }
        k = k + 1;
    }
    proof {
        if texts_view(names@).contains(name@) {
            let j = choose|j: int| 0 <= j < texts_view(names@).len() && texts_view(names@)[j] == name@;
            assert(names@[j]@ == name@);
        }
    }
    false
}

/// The name under which a downloaded `filename` is stored in a folder that
/// already holds `taken`: the first candidate (`destination_name`) that is
/// not taken. It is always a bare file name, so the file stays in the folder.
pub fn free_destination_name(filename: &str, taken: &[String]) -> (r: String)
    ensures
        single_component(r@),
        exists|n: nat| #[trigger] first_free(filename@, texts_view(taken@), n) && r@ == destination_name_of(filename@, n),
{
    let ghost t = texts_view(taken@);
    let count = taken.len();
    let mut n: u64 = 0;
    loop
        invariant
            t == texts_view(taken@),
            count == taken@.len(),
            n <= taken@.len(),
            forall|m: nat| m < n ==> t.contains(#[trigger] destination_name_of(filename@, m)),
        decreases taken@.len() - n,
    {
        let name = destination_name(filename, n);
        if !listed(taken, name.as_str()) {
            assert(first_free(filename@, t, n as nat));
            return name;
        }
        proof {
            assert forall|m: nat| m < n + 1 implies t.contains(#[trigger] destination_name_of(filename@, m)) by {
                if m < n {
                } else {
                    assert(m == n);
                }
            }
            lemma_taken_candidates(filename@, t, (n + 1) as nat);
            assert(t.len() == taken@.len());
        }
        n = n + 1;
    }
}

/// A media attached to a message.
pub struct MediaRef {
    pub id: String,
    pub filename: String,
}

/// What the user asked of a media of the thread.
#[derive(Clone, Copy, Debug, PartialEq, Eq)]
pub enum MediaAction {
    View,
    Download,
}

/// Records the chosen media action: the media to open in the viewer, or the
/// media (id and file name) to download. Nothing for a message without media.
pub fn apply_media_action(
    action: MediaAction,
    media: &Option<MediaRef>,
    view_open: &mut Option<String>,
    download: &mut Option<(String, String)>,
)
    ensures
        match media {
            None => *final(view_open) == *old(view_open) && *final(download) == *old(download),
            Some(m) => match action {
                MediaAction::View => {
                    &&& *final(view_open) matches Some(v) && v@ == m.id@
                    &&& *final(download) == *old(download)
                },
                MediaAction::Download => {
                    &&& *final(download) matches Some(d) && d.0@ == m.id@ && d.1@ == m.filename@
                    &&& *final(view_open) == *old(view_open)
                },
            },
        },
{
    match media {
        None => {},
        Some(m) => match action {
            MediaAction::View => {
                *view_open = Some(m.id.clone());
            },
            MediaAction::Download => {
                *download = Some((m.id.clone(), m.filename.clone()));
            },
        },
    }
}

/// A size unit of the thread and the settings.
#[derive(Clone, Copy, Debug, PartialEq, Eq)]
pub enum SizeUnit {
    Bytes,
    Kilo,
    Mega,
    Giga,
}

/// The unit the thread shows a size in (powers of 1024).
pub open spec fn binary_unit_of(bytes: u64) -> SizeUnit {
    if bytes >= 1073741824 {
        SizeUnit::Giga
    } else if bytes >= 1048576 {
        SizeUnit::Mega
    } else if bytes >= 1024 {
        SizeUnit::Kilo
    } else {
        SizeUnit::Bytes
    }
}

/// The unit in which the thread shows a size (`o`, `Ko`, `Mo`, `Go`, powers of 1024).
pub fn format_bytes_unit(bytes: u64) -> (r: SizeUnit)
    ensures
        r == binary_unit_of(bytes),
{
    if bytes >= 1073741824 {
        SizeUnit::Giga
    } else if bytes >= 1048576 {
        SizeUnit::Mega
    } else if bytes >= 1024 {
        SizeUnit::Kilo
    } else {
        SizeUnit::Bytes
    }
}

/// The unit the settings show a size in (powers of 1000).
pub open spec fn decimal_unit_of(bytes: u64) -> SizeUnit {
    if bytes >= 1000000000 {
        SizeUnit::Giga
    } else if bytes >= 1000000 {
        SizeUnit::Mega
    } else if bytes >= 1000 {
        SizeUnit::Kilo
    } else {
        SizeUnit::Bytes
    }
}

/// The unit in which the settings show a size (`o`, `ko`, `Mo`, `Go`, powers of 1000).
pub fn human_bytes_unit(bytes: u64) -> (r: SizeUnit)
    ensures
        r == decimal_unit_of(bytes),
{
    if bytes >= 1000000000 {
        SizeUnit::Giga
    } else if bytes >= 1000000 {
        SizeUnit::Mega
    } else if bytes >= 1000 {
        SizeUnit::Kilo
    } else {
        SizeUnit::Bytes
    }
}


/// Most textures of the thread kept at once.
pub const MEDIA_TEXTURE_CACHE_MAX: usize = 32;

/// Position of the first occurrence of `id` in `list`, or -1.
pub open spec fn first_position(list: Seq<Seq<char>>, id: Seq<char>) -> int
    decreases list.len(),
{
    if list.len() == 0 {
        -1
    } else if list[0] == id {
        0
    } else if first_position(list.drop_first(), id) < 0 {
        -1
    } else {
        first_position(list.drop_first(), id) + 1
    }
}

/// `list` with the first occurrence of `id` moved to the end (or `id`
/// added there): `id` becomes the most recently used.
pub open spec fn touched(list: Seq<Seq<char>>, id: Seq<char>) -> Seq<Seq<char>> {
    let p = first_position(list, id);
    if p < 0 {
        list.push(id)
    } else {
        (list.take(p) + list.skip(p + 1)).push(id)
    }
}

proof fn lemma_first_position(list: Seq<Seq<char>>, id: Seq<char>)
    ensures
        -1 <= first_position(list, id) < list.len(),
        first_position(list, id) >= 0 ==> list[first_position(list, id)] == id,
        forall|k: int|
            0 <= k < (if first_position(list, id) < 0 {
                list.len() as int
            } else {
                first_position(list, id)
            }) ==> list[k] != id,
    decreases list.len(),
{
    if list.len() > 0 && list[0] != id {
        lemma_first_position(list.drop_first(), id);
        let p = first_position(list, id);
        assert forall|k: int|
            0 <= k < (if p < 0 {
                list.len() as int
            } else {
                p
            }) implies list[k] != id by {
            if k > 0 {
                assert(list[k] == list.drop_first()[k - 1]);
            }
        }
        if p >= 0 {
            assert(list[p] == list.drop_first()[p - 1]);
        }
    }
}

/// Marks the texture `id` as the most recently shown.
pub fn touch_lru(lru: &mut Vec<String>, id: &str)
    ensures
        texts_view(final(lru)@) == touched(texts_view(old(lru)@), id@),
{
    let ghost v = texts_view(lru@);
    proof {
        lemma_first_position(v, id@);
    }
    let mut i: usize = 0;
    let mut found = false;
    while i < lru.len() && !found
        invariant
            i <= lru@.len(),
            v == texts_view(lru@),
            -1 <= first_position(v, id@) < v.len(),
            first_position(v, id@) >= 0 ==> v[first_position(v, id@)] == id@,
            forall|k: int|
                0 <= k < (if first_position(v, id@) < 0 {
                    v.len() as int
                } else {
                    first_position(v, id@)
                }) ==> v[k] != id@,
            found ==> i < lru@.len() && first_position(v, id@) == i,
            !found ==> forall|k: int| 0 <= k < i ==> v[k] != id@,
        decreases lru@.len() - i + if found {
            0int
        } else {
            1int
        },
    {
        if crate::chars::text_eq(lru[i].as_str(), id) {
            found = true;
            proof {
                assert(v[i as int] == id@);
                if first_position(v, id@) < 0 || first_position(v, id@) > i {
                    assert(v[i as int] != id@);
                }
            }
        } else {
            i = i + 1;
        }
    }
    if found {
        lru.remove(i);
        proof {
            assert(texts_view(lru@) =~= v.take(i as int) + v.skip(i + 1));
        }
    } else {
        proof {
            if first_position(v, id@) >= 0 {
                assert(v[first_position(v, id@)] == id@);
            }
        }
    }
    let ghost before = texts_view(lru@);
    lru.push(String::from_str(id));
    proof {
        assert(texts_view(lru@) =~= before.push(id@));
    }
}

/// Drops the least recently shown textures beyond `max`; gives back the
/// identifiers dropped, oldest first.
pub fn evict_lru(lru: &mut Vec<String>, max: usize) -> (removed: Vec<String>)
    ensures
        old(lru)@.len() <= max ==> final(lru)@ == old(lru)@ && removed@.len() == 0,
        old(lru)@.len() > max ==> {
            &&& final(lru)@ == old(lru)@.skip(old(lru)@.len() - max)
            &&& removed@ == old(lru)@.take(old(lru)@.len() - max)
        },
{
    let ghost all = lru@;
    let mut removed: Vec<String> = Vec::new();
    while lru.len() > max
        invariant
            removed@ + lru@ == all,
            all.len() > max ==> lru@.len() >= max,
            all.len() <= max ==> lru@ == all && removed@.len() == 0,
        decreases lru@.len(),
    {
        let ghost before = lru@;
        let oldest = lru.remove(0);
        let ghost prev = removed@;
        removed.push(oldest);
        proof {
            assert(removed@ + lru@ =~= prev + before);
        }
    }
    proof {
        if all.len() > max {
            assert(lru@.len() == max);
            assert(lru@ =~= all.skip(all.len() - max));
            assert(removed@ =~= all.take(all.len() - max));
        }
    }
    removed
}

/// A touched texture becomes the most recent one; the list grows only when
/// it was not there, and a list without repeats stays so.
pub proof fn touch_makes_most_recent(list: Seq<Seq<char>>, id: Seq<char>)
    ensures
        touched(list, id).last() == id,
        touched(list, id).len() == if list.contains(id) {
            list.len()
        } else {
            list.len() + 1
        },
        list.no_duplicates() ==> touched(list, id).no_duplicates(),
{
    lemma_first_position(list, id);
    let p = first_position(list, id);
    let t = touched(list, id);
    if p >= 0 {
        assert(list.contains(id));
        let rest = list.take(p) + list.skip(p + 1);
        assert(t == rest.push(id));
        if list.no_duplicates() {
            assert forall|i: int, j: int| 0 <= i < t.len() && 0 <= j < t.len() && i != j implies t[i]
                != t[j] by {
                let li = if i < p { i } else { i + 1 };
                let lj = if j < p { j } else { j + 1 };
                if i < rest.len() && j < rest.len() {
                    assert(t[i] == list[li]);
                    assert(t[j] == list[lj]);
                } else if i < rest.len() {
                    assert(t[i] == list[li]);
                    assert(t[j] == list[p]);
                } else {
                    assert(t[j] == list[lj]);
                    assert(t[i] == list[p]);
                }
            }
        }
    } else {
        assert(!list.contains(id)) by {
            if list.contains(id) {
                let k = choose|k: int| 0 <= k < list.len() && list[k] == id;
                assert(list[k] != id);
            }
        }
        if list.no_duplicates() {
            assert forall|i: int, j: int| 0 <= i < t.len() && 0 <= j < t.len() && i != j implies t[i]
                != t[j] by {
                if i < list.len() && j < list.len() {
                } else if i < list.len() {
                    assert(list[i] != id);
                } else {
                    assert(list[j] != id);
                }
            }
        }
    }
}

/// No entry of `list` is equal, as a path, to an entry after it.
pub open spec fn distinct_paths(list: Seq<Seq<char>>) -> bool {
    forall|i: int, j: int| 0 <= i < j < list.len() ==> !same_path(#[trigger] list[i], #[trigger] list[j])
}

/// Adding paths keeps the entries already there, first and in order, adds
/// only paths of the list, at most one per path, and never adds a path equal
/// to one already held: a list without equal paths stays so.
pub proof fn unique_paths_keep_and_add(target: Seq<Seq<char>>, paths: Seq<Seq<char>>)
    ensures
        target.len() <= with_unique_paths(target, paths).len() <= target.len() + paths.len(),
        with_unique_paths(target, paths).take(target.len() as int) == target,
        forall|k: int|
            target.len() <= k < with_unique_paths(target, paths).len() ==> paths.contains(
                #[trigger] with_unique_paths(target, paths)[k],
            ),
        distinct_paths(target) ==> distinct_paths(with_unique_paths(target, paths)),
    decreases paths.len(),
{
    if paths.len() > 0 {
        let init = paths.drop_last();
        unique_paths_keep_and_add(target, init);
        let t = with_unique_paths(target, init);
        let x = paths.last();
        let r = with_unique_paths(target, paths);
        assert forall|k: int| target.len() <= k < t.len() implies paths.contains(#[trigger] t[k]) by {
            let j = choose|j: int| 0 <= j < init.len() && init[j] == t[k];
            assert(paths[j] == init[j]);
        }
        if !(exists|k: int| 0 <= k < t.len() && same_path(#[trigger] t[k], x)) {
            assert(r == t.push(x));
            assert(r.take(target.len() as int) =~= t.take(target.len() as int));
            assert(paths[paths.len() - 1] == x);
            assert forall|k: int| target.len() <= k < r.len() implies paths.contains(#[trigger] r[k]) by {
                if k < t.len() {
                    assert(r[k] == t[k]);
                } else {
                    assert(r[k] == x);
                }
            }
            if distinct_paths(target) {
                assert forall|i: int, j: int| 0 <= i < j < r.len() implies !same_path(
                    #[trigger] r[i],
                    #[trigger] r[j],
                ) by {
                    assert(r[i] == t[i]);
                    if j < t.len() {
                        assert(r[j] == t[j]);
                    } else {
                        assert(r[j] == x);
                    }
                }
            }
        }
    }
}

/// Every character of a decimal text is a digit, and there is at least one.
pub(crate) proof fn lemma_decimal_digits(n: nat)
    ensures
        decimal_text(n).len() >= 1,
        forall|k: int| 0 <= k < decimal_text(n).len() ==> '0' <= #[trigger] decimal_text(n)[k] <= '9',
    decreases n,
{
    if n >= 10 {
        lemma_decimal_digits(n / 10);
        let a = decimal_text(n / 10);
        let d = seq![((n % 10) + '0' as nat) as char];
        assert forall|k: int| 0 <= k < decimal_text(n).len() implies '0' <= #[trigger] decimal_text(n)[k] <= '9' by {
            if k < a.len() {
                assert(decimal_text(n)[k] == a[k]);
            } else {
                assert(decimal_text(n)[k] == d[k - a.len()]);
            }
        }
    }
}

/// Different numbers are written differently.
#[verifier::spinoff_prover]
pub(crate) proof fn lemma_decimal_injective(a: nat, b: nat)
    requires
        decimal_text(a) == decimal_text(b),
    ensures
        a == b,
    decreases a,
{
    lemma_decimal_digits(a / 10);
    lemma_decimal_digits(b / 10);
    let da = decimal_text(a);
    let db = decimal_text(b);
    if a >= 10 && b >= 10 {
        assert(da.drop_last() =~= decimal_text(a / 10));
        assert(db.drop_last() =~= decimal_text(b / 10));
        lemma_decimal_injective(a / 10, b / 10);
        assert(da.last() == db.last());
    } else if a < 10 && b < 10 {
        assert(da[0] == db[0]);
    } else {
        assert(da.len() != db.len());
    }
}

/// The candidate names tried for a download are all different, so that the
/// first free one is never a name already taken.
pub proof fn destination_names_differ(filename: Seq<char>, n1: nat, n2: nat)
    requires
        n1 != n2,
    ensures
        destination_name_of(filename, n1) != destination_name_of(filename, n2),
{
    let safe = safe_name(path_file_name(filename));
    let dot = last_index(safe, '.');
    lemma_last_index(safe, '.');
    let pre = if dot < 0 { safe } else { safe.take(dot) };
    let ext = if dot < 0 { Seq::<char>::empty() } else { safe.skip(dot) };
    assert(safe =~= pre + ext);
    lemma_decimal_digits(n1);
    lemma_decimal_digits(n2);
    let a = destination_name_of(filename, n1);
    let b = destination_name_of(filename, n2);
    let d1 = decimal_text(n1);
    let d2 = decimal_text(n2);
    if n1 == 0 || n2 == 0 {
        if n1 == 0 {
            assert(b =~= pre + seq![' ', '('] + d2 + seq![')'] + ext);
            assert(a.len() < b.len());
        } else {
            assert(a =~= pre + seq![' ', '('] + d1 + seq![')'] + ext);
            assert(b.len() < a.len());
        }
    } else {
        assert(a =~= pre + seq![' ', '('] + d1 + seq![')'] + ext);
        assert(b =~= pre + seq![' ', '('] + d2 + seq![')'] + ext);
        let base: int = pre.len() + 2int;
        if d1.len() == d2.len() {
            if forall|j: int| 0 <= j < d1.len() ==> d1[j] == d2[j] {
                assert(d1 =~= d2);
                lemma_decimal_injective(n1, n2);
            }
            let j = choose|j: int| 0 <= j < d1.len() && d1[j] != d2[j];
            assert(a[base + j] == d1[j]);
            assert(b[base + j] == d2[j]);
        } else if d1.len() < d2.len() {
            assert(a[base + d1.len() as int] == ')');
            assert(b[base + d1.len() as int] == d2[d1.len() as int]);
        } else {
            assert(b[base + d2.len() as int] == ')');
            assert(a[base + d2.len() as int] == d1[d2.len() as int]);
        }
    }
}

} // verus!
