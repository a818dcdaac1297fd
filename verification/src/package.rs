//! Packages: a zip archive with a manifest, the rules that the manifest keeps, and the
//! identity of the whole.

use vstd::prelude::*;
use vstd::string::*;
use vstd::utf8::*;

use crate::digest::{is_digest_name, sha256_hex, sha256_text};
use crate::json::{
    array_model, canon, field, json_parse, json_text, lemma_array_model, list_field, parse_json,
    Json, JsonModel,
};
use crate::layout::{integers_only, law_layout_tells_the_value, layout};
use crate::order::{
    key_lt, keys_sorted, lemma_keys_sorted_unique, lemma_map_multiset, lemma_order_keeps,
    lemma_order_sorts, stable_order, text_before, text_lt, Ranked, SortKey,
};
use crate::text::{cat, cat3, decimal, decimal_text, same};

verus! {

/// `std::io::Cursor`, a reader over bytes in memory; opaque here.
#[verifier::external_type_specification]
#[verifier::external_body]
#[verifier::reject_recursive_types(T)]
pub struct ExCursor<T>(std::io::Cursor<T>);

/// `zip::ZipArchive`, opaque here; [`zip_parts`] names what it holds.
#[verifier::external_type_specification]
#[verifier::external_body]
#[verifier::reject_recursive_types(R)]
pub struct ExZipArchive<R>(zip::ZipArchive<R>);

/// One place in an archive.
pub enum ZipPart {
    /// It cannot be opened, for this reason.
    Closed(String),
    /// It has this name, and cannot be read, for this reason.
    Unreadable(String, String),
    /// It has this name, and holds this data.
    File(String, Vec<u8>),
}

/// A [`ZipPart`] as mathematics.
pub enum PartModel {
    Closed(Seq<char>),
    Unreadable(Seq<char>, Seq<char>),
    File(Seq<char>, Seq<u8>),
}

impl View for ZipPart {
    type V = PartModel;

    open spec fn view(&self) -> PartModel {
        match self {
            ZipPart::Closed(e) => PartModel::Closed(e@),
            ZipPart::Unreadable(name, e) => PartModel::Unreadable(name@, e@),
            ZipPart::File(name, data) => PartModel::File(name@, data@),
        }
    }
}

/// The parts as mathematics.
pub open spec fn parts_of(v: Seq<ZipPart>) -> Seq<PartModel> {
    v.map_values(|p: ZipPart| p@)
}

/// What an open archive holds, place by place.
pub uninterp spec fn zip_parts(
    archive: zip::ZipArchive<std::io::Cursor<Vec<u8>>>,
) -> Seq<PartModel>;

/// What `zip::ZipArchive::new` makes of these bytes: the parts of an archive, or the
/// text of its error.
pub uninterp spec fn zip_read(bytes: Seq<u8>) -> Result<Seq<PartModel>, Seq<char>>;

/// `zip::ZipArchive::new` on bytes in memory, with the text of its error; [`zip_read`]
/// names what comes out.
#[verifier::external_body]
fn zip_open(bytes: Vec<u8>) -> (r: Result<zip::ZipArchive<std::io::Cursor<Vec<u8>>>, String>)
    ensures
        match r {
            Ok(archive) => zip_read(bytes@) == Ok::<Seq<PartModel>, Seq<char>>(zip_parts(archive)),
            Err(e) => zip_read(bytes@) == Err::<Seq<PartModel>, Seq<char>>(e@),
        },
{
    zip::ZipArchive::new(std::io::Cursor::new(bytes)).map_err(|e| e.to_string())
}

/// `zip::ZipArchive::len`: how many places the archive has.
#[verifier::external_body]
fn zip_len(archive: &zip::ZipArchive<std::io::Cursor<Vec<u8>>>) -> (r: usize)
    ensures
        r == zip_parts(*archive).len(),
{
    archive.len()
}

/// `zip::ZipArchive::by_index`, and the name and all data of what it opens. Reading one
/// place leaves what the archive holds as it is.
#[verifier::external_body]
fn zip_part(archive: &mut zip::ZipArchive<std::io::Cursor<Vec<u8>>>, i: usize) -> (r: ZipPart)
    requires
        i < zip_parts(*old(archive)).len(),
    ensures
        zip_parts(*final(archive)) == zip_parts(*old(archive)),
        r@ == zip_parts(*old(archive))[i as int],
{
    match archive.by_index(i) {
        Err(e) => ZipPart::Closed(e.to_string()),
        Ok(mut file) => {
            let name = file.name().to_string();
            let mut data = Vec::new();
            match std::io::Read::read_to_end(&mut file, &mut data) {
                Err(e) => ZipPart::Unreadable(name, e.to_string()),
                Ok(_) => ZipPart::File(name, data),
            }
        },
    }
}

/// A file of a package.
pub struct ZipEntry {
    pub name: String,
    pub data: Vec<u8>,
}

/// A file as mathematics: its name and its data.
pub type FileModel = (Seq<char>, Seq<u8>);

impl View for ZipEntry {
    type V = FileModel;

    open spec fn view(&self) -> FileModel {
        (self.name@, self.data@)
    }
}

/// The files as mathematics.
pub open spec fn files_of(v: Seq<ZipEntry>) -> Seq<FileModel> {
    v.map_values(|e: ZipEntry| e@)
}

/// The manifest so far, if any, and the files.
pub type PackageSoFar = (Option<JsonModel>, Seq<FileModel>);

/// What the parts tell, one after the other. The first that cannot be read ends it; of
/// several manifests the last one counts.
pub open spec fn parts_told(parts: Seq<PartModel>) -> Result<PackageSoFar, Seq<char>>
    decreases parts.len(),
{
    if parts.len() == 0 {
        Ok((None, Seq::empty()))
    } else {
        match parts_told(parts.drop_last()) {
            Err(e) => Err(e),
            Ok((manifest, files)) => match parts.last() {
                PartModel::Closed(e) => Err(
                    "zip entry "@ + decimal_text((parts.len() - 1) as nat) + ": "@ + e,
                ),
                PartModel::Unreadable(name, e) => Err("read "@ + name + ": "@ + e),
                PartModel::File(name, data) => if name == "mpkg.json"@ {
                    match json_parse(data) {
                        Ok(m) => Ok((Some(m), files.push((name, data)))),
                        Err(e) => Err("manifest parse: "@ + e),
                    }
                } else {
                    Ok((manifest, files.push((name, data))))
                },
            },
        }
    }
}

/// The manifest and the files of a package, or why it cannot be used.
pub open spec fn package_told(parts: Seq<PartModel>) -> Result<
    (JsonModel, Seq<FileModel>),
    Seq<char>,
> {
    match parts_told(parts) {
        Ok((Some(m), files)) => Ok((m, files)),
        Ok((None, _)) => Err("zip missing mpkg.json"@),
        Err(e) => Err(e),
    }
}

proof fn lemma_told_error(parts: Seq<PartModel>, n: int)
    requires
        0 <= n <= parts.len(),
        parts_told(parts.take(n)) is Err,
    ensures
        parts_told(parts) == parts_told(parts.take(n)),
    decreases parts.len() - n,
{
    if n < parts.len() {
        assert(parts.take(n + 1).drop_last() == parts.take(n));
        lemma_told_error(parts, n + 1);
    } else {
        assert(parts.take(n) == parts);
    }
}

/// Takes the manifest and the files from the parts of an archive.
pub fn read_parts(parts: Vec<ZipPart>) -> (r: Result<(Json, Vec<ZipEntry>), String>)
    ensures
        match r {
            Ok(p) => package_told(parts_of(parts@)) == Ok::<
                (JsonModel, Seq<FileModel>),
                Seq<char>,
            >((p.0.model(), files_of(p.1@))),
            Err(e) => package_told(parts_of(parts@)) == Err::<
                (JsonModel, Seq<FileModel>),
                Seq<char>,
            >(e@),
        },
{
    let ghost all = parts_of(parts@);
    let n = parts.len();
    let mut manifest: Option<Json> = None;
    let mut entries: Vec<ZipEntry> = Vec::new();
    let mut i: usize = 0;
    assert(files_of(entries@) == Seq::<FileModel>::empty());
    assert(all.take(0) == Seq::<PartModel>::empty());
    for part in it: parts
        invariant
            it.seq() == parts@,
            n == parts@.len(),
            i == it.index(),
            all == parts_of(parts@),
            parts_told(all.take(i as int)) == Ok::<PackageSoFar, Seq<char>>(
                (
                    match manifest {
                        Some(m) => Some(m.model()),
                        None => None,
                    },
                    files_of(entries@),
                ),
            ),
    {
        let ghost next = all.take(i + 1);
        assert(next.drop_last() == all.take(i as int));
        assert(next.last() == part@);
        let ghost before = entries@;
        match part {
            ZipPart::Closed(e) => {
                proof {
                    lemma_told_error(all, i + 1);
                }
                return Err(cat3(&cat("zip entry ", &decimal(i as u64)), ": ", &e));
            },
            ZipPart::Unreadable(name, e) => {
                proof {
                    lemma_told_error(all, i + 1);
                }
                return Err(cat3(&cat("read ", &name), ": ", &e));
            },
            ZipPart::File(name, data) => {
                if same(&name, "mpkg.json") {
                    match parse_json(&data) {
                        Ok(m) => {
                            manifest = Some(m);
                        },
                        Err(e) => {
                            proof {
                                lemma_told_error(all, i + 1);
                            }
                            return Err(cat("manifest parse: ", &e));
                        },
                    }
                }
                let entry = ZipEntry { name, data };
                entries.push(entry);
                assert(files_of(entries@) == files_of(before).push(entry@));
            },
        }
        i += 1;
    }
    assert(all.take(n as int) == all);
    match manifest {
        Some(m) => Ok((m, entries)),
        None => Err("zip missing mpkg.json".to_owned()),
    }
}

/// The manifest and the files in the bytes of a package, or why it cannot be used.
pub open spec fn zip_told(bytes: Seq<u8>) -> Result<(JsonModel, Seq<FileModel>), Seq<char>> {
    match zip_read(bytes) {
        Ok(parts) => package_told(parts),
        Err(e) => Err("zip: "@ + e),
    }
}

/// Reads a package.
pub fn read_zip(bytes: Vec<u8>) -> (r: Result<(Json, Vec<ZipEntry>), String>)
    ensures
        match r {
            Ok(p) => zip_told(bytes@) == Ok::<(JsonModel, Seq<FileModel>), Seq<char>>(
                (p.0.model(), files_of(p.1@)),
            ),
            Err(e) => zip_told(bytes@) == Err::<(JsonModel, Seq<FileModel>), Seq<char>>(e@),
        },
{
    let mut archive = match zip_open(bytes) {
        Ok(archive) => archive,
        Err(e) => {
            return Err(cat("zip: ", &e));
        },
    };
    let ghost all = zip_parts(archive);
    let n = zip_len(&archive);
    let mut parts: Vec<ZipPart> = Vec::new();
    let mut i: usize = 0;
    while i < n
        invariant
            i <= n,
            n == all.len(),
            zip_parts(archive) == all,
            parts@.len() == i,
            forall|k: int| 0 <= k < i ==> (#[trigger] parts@[k])@ == all[k],
        decreases n - i,
    {
        let part = zip_part(&mut archive, i);
        parts.push(part);
        i += 1;
    }
    assert(parts_of(parts@) == all);
    read_parts(parts)
}

/// The first of the keys that a value lacks.
pub open spec fn missing_key(m: JsonModel, keys: Seq<Seq<char>>) -> Option<Seq<char>>
    decreases keys.len(),
{
    if keys.len() == 0 {
        None
    } else if field(m, keys[0]) is None {
        Some(keys[0])
    } else {
        missing_key(m, keys.skip(1))
    }
}

/// The keys that each manifest has.
pub open spec fn required_keys() -> Seq<Seq<char>> {
    seq!["mpkg"@, "name"@, "version"@, "intent"@, "steps"@, "verify"@]
}

/// A list of steps that can be replayed: at least one, and each says what to run.
pub open spec fn steps_fit(steps: Option<Seq<JsonModel>>) -> bool {
    &&& steps is Some
    &&& steps->0.len() > 0
    &&& forall|i: int| 0 <= i < steps->0.len() ==> field(#[trigger] steps->0[i], "run"@) is Some
}

/// Why a manifest cannot be used; none where it can.
pub open spec fn manifest_error(m: JsonModel) -> Option<Seq<char>> {
    match missing_key(m, required_keys()) {
        Some(key) => Some("manifest missing: "@ + key),
        None => if field(m, "mpkg"@) != Some(JsonModel::Text("0.1"@)) {
            Some("unsupported mpkg version: "@ + json_text(field(m, "mpkg"@)->0))
        } else if !steps_fit(list_field(m, "steps"@)) {
            Some("steps must be non-empty list of {run}"@)
        } else if !(list_field(m, "verify"@) is Some && list_field(m, "verify"@)->0.len() > 0) {
            Some("verify must be non-empty"@)
        } else {
            None
        },
    }
}

fn has_steps(m: &Json) -> (r: bool)
    ensures
        r == steps_fit(list_field(m.model(), "steps"@)),
{
    match m.get_list("steps") {
        None => false,
        Some(items) => {
            proof {
                lemma_array_model(items@);
            }
            let ghost all = array_model(items@);
            let n = items.len();
            let mut i: usize = 0;
            while i < n
                invariant
                    n == items@.len(),
                    i <= n,
                    all == array_model(items@),
                    all.len() == n,
                    forall|k: int| 0 <= k < all.len() ==> #[trigger] all[k] == items@[k].model(),
                    forall|k: int| 0 <= k < i ==> field(#[trigger] all[k], "run"@) is Some,
                    list_field(m.model(), "steps"@) == Some(all),
                decreases n - i,
            {
                if items[i].get("run").is_none() {
                    assert(field(all[i as int], "run"@) is None);
                    return false;
                }
                i += 1;
            }
            n > 0
        },
    }
}

/// Checks that a manifest can be used.
pub fn validate(m: &Json) -> (r: Result<(), String>)
    ensures
        match r {
            Ok(_) => manifest_error(m.model()) is None,
            Err(e) => manifest_error(m.model()) == Some(e@),
        },
{
    let keys: [&str; 6] = ["mpkg", "name", "version", "intent", "steps", "verify"];
    let ghost all = required_keys();
    let mut i: usize = 0;
    assert(all.skip(0) == all);
    while i < 6
        invariant
            i <= 6,
            all == required_keys(),
            forall|k: int| 0 <= k < 6 ==> (#[trigger] keys@[k])@ == all[k],
            missing_key(m.model(), all) == missing_key(m.model(), all.skip(i as int)),
        decreases 6 - i,
    {
        assert(all.skip(i as int).skip(1) == all.skip(i + 1));
        assert(all.skip(i as int)[0] == all[i as int]);
        if m.get(keys[i]).is_none() {
            return Err(cat("manifest missing: ", keys[i]));
        }
        i += 1;
    }
    assert(missing_key(m.model(), all.skip(6)) is None);
    proof {
        lemma_no_missing_key(m.model(), all, 0);
    }
    if let Some(v) = m.get("mpkg") {
        let supported = match v {
            Json::Text(t) => same(t, "0.1"),
            _ => false,
        };
        if !supported {
            return Err(cat("unsupported mpkg version: ", &canon(v)));
        }
    }
    if !has_steps(m) {
        return Err("steps must be non-empty list of {run}".to_owned());
    }
    match m.get_list("verify") {
        Some(items) => {
            proof {
                lemma_array_model(items@);
            }
            if items.len() > 0 {
                return Ok(());
            }
        },
        None => {},
    }
    Err("verify must be non-empty".to_owned())
}

/// Where no key is missing, the object has each of them.
pub proof fn lemma_no_missing_key(m: JsonModel, keys: Seq<Seq<char>>, k: int)
    requires
        missing_key(m, keys) is None,
        0 <= k < keys.len(),
    ensures
        field(m, keys[k]) is Some,
    decreases keys.len(),
{
    if k > 0 {
        lemma_no_missing_key(m, keys.skip(1), k - 1);
        assert(keys.skip(1)[k - 1] == keys[k]);
    }
}

/// A file in the list of a package: its name, and its digest in text.
pub type Digested = (Seq<char>, Seq<char>);

/// The list as mathematics.
pub open spec fn digested_of(v: Seq<(String, String)>) -> Seq<Digested> {
    v.map_values(|e: (String, String)| (e.0@, e.1@))
}

/// The files, each with its digest.
pub open spec fn digests(files: Seq<FileModel>) -> Seq<Digested> {
    files.map_values(|f: FileModel| (f.0, sha256_text(f.1)))
}

/// The place of a file in the list: by its name, then by its digest.
pub open spec fn digested_key(d: Digested) -> SortKey {
    SortKey { first: d.0, second: d.1, third: 0 }
}

/// A list of files in order.
pub open spec fn digests_sorted(s: Seq<Digested>) -> bool {
    keys_sorted(s, |d: Digested| digested_key(d))
}

/// The list is that of these files, in order.
pub open spec fn lists_files(list: Seq<Digested>, files: Seq<FileModel>) -> bool {
    digests_sorted(list) && list.to_multiset() == digests(files).to_multiset()
}

impl Ranked for (String, String) {
    open spec fn key(&self) -> SortKey {
        digested_key((self.0@, self.1@))
    }

    fn before(&self, other: &Self) -> (r: bool) {
        text_before(&self.0, &other.0) || (same(&self.0, &other.0) && text_before(
            &self.1,
            &other.1,
        ))
    }
}

/// Lists the files with their digests, in order.
pub fn list_files(entries: &[ZipEntry]) -> (r: Vec<(String, String)>)
    ensures
        lists_files(digested_of(r@), files_of(entries@)),
        r@.len() == entries@.len(),
        forall|i: int|
            0 <= i < entries@.len() ==> digested_of(r@).contains(
                ((#[trigger] entries@[i]).name@, sha256_text(entries@[i].data@)),
            ),
{
    let mut found: Vec<(String, String)> = Vec::new();
    let mut i: usize = 0;
    while i < entries.len()
        invariant
            i <= entries@.len(),
            found@.len() == i,
            forall|k: int|
                0 <= k < i ==> (#[trigger] found@[k]).0@ == entries@[k].name@ && found@[k].1@
                    == sha256_text(entries@[k].data@),
        decreases entries@.len() - i,
    {
        found.push((entries[i].name.clone(), sha256_hex(&entries[i].data)));
        i += 1;
    }
    let p = stable_order(&found);
    let mut out: Vec<(String, String)> = Vec::new();
    let mut j: usize = 0;
    while j < p.len()
        invariant
            j <= p@.len(),
            p@.len() == found@.len(),
            forall|k: int| 0 <= k < p@.len() ==> #[trigger] p@[k] < found@.len(),
            out@.len() == j,
            forall|k: int|
                0 <= k < j ==> (#[trigger] out@[k]).0@ == found@[p@[k] as int].0@ && out@[k].1@
                    == found@[p@[k] as int].1@,
        decreases p@.len() - j,
    {
        let e = &found[p[j]];
        out.push((e.0.clone(), e.1.clone()));
        j += 1;
    }
    proof {
        let view = |e: (String, String)| (e.0@, e.1@);
        lemma_order_keeps(found@, p@, view);
        assert(digested_of(out@) =~= p@.map_values(|i: usize| view(found@[i as int])));
        assert(found@.map_values(view) =~= digests(files_of(entries@)));
        let s = digested_of(out@);
        assert forall|i: int, j: int| 0 <= i < j < s.len() implies !key_lt(
            digested_key(#[trigger] s[j]),
            digested_key(#[trigger] s[i]),
        ) by {
            lemma_order_sorts(found@, p@, i, j);
        }
        let files = files_of(entries@);
        law_list_holds_every_file(s, files);
        assert forall|i: int| 0 <= i < entries@.len() implies s.contains(
            ((#[trigger] entries@[i]).name@, sha256_text(entries@[i].data@)),
        ) by {
            assert(files[i] == (entries@[i].name@, entries@[i].data@));
        }
    }
    out
}

/// The object from the name of each file to its digest; of two files with one name the
/// later one counts.
pub open spec fn files_object(files: Seq<Digested>) -> Map<Seq<char>, JsonModel>
    decreases files.len(),
{
    if files.len() == 0 {
        Map::empty()
    } else {
        files_object(files.drop_last()).insert(
            files.last().0,
            JsonModel::Text(files.last().1),
        )
    }
}

/// What stands for a package: its manifest and its files.
pub open spec fn package_model(manifest: JsonModel, files: Seq<Digested>) -> JsonModel {
    JsonModel::Object(
        map!["manifest"@ => manifest, "files"@ => JsonModel::Object(files_object(files))],
    )
}

/// Builds what stands for a package.
pub fn package_blob(manifest: &Json, files: &[(String, String)]) -> (r: Json)
    ensures
        r.model() == package_model(manifest.model(), digested_of(files@)),
{
    let ghost all = digested_of(files@);
    let mut object = Json::object();
    let mut i: usize = 0;
    assert(all.take(0) == Seq::<Digested>::empty());
    while i < files.len()
        invariant
            i <= files@.len(),
            all == digested_of(files@),
            object is Object,
            object.model() == JsonModel::Object(files_object(all.take(i as int))),
        decreases files@.len() - i,
    {
        assert(all.take(i + 1).drop_last() == all.take(i as int));
        assert(all.take(i + 1).last() == (files@[i as int].0@, files@[i as int].1@));
        object = object.with(&files[i].0, Json::text(&files[i].1));
        i += 1;
    }
    assert(all.take(i as int) == all);
    Json::object().with("manifest", manifest.copy()).with("files", object)
}

/// The identity of a package: the digest of its text.
pub open spec fn package_id_of(manifest: JsonModel, files: Seq<Digested>) -> Seq<char> {
    "sha256:"@ + sha256_text(encode_utf8(json_text(package_model(manifest, files))))
}

/// The form that each identity has.
pub open spec fn is_package_id(id: Seq<char>) -> bool {
    exists|name: Seq<char>| is_digest_name(name) && id == #[trigger] ("sha256:"@ + name)
}

/// Computes the identity of a package.
pub fn package_id(manifest: &Json, files: &[(String, String)]) -> (r: String)
    ensures
        r@ == package_id_of(manifest.model(), digested_of(files@)),
        is_package_id(r@),
{
    let text = canon(&package_blob(manifest, files));
    let name = sha256_hex(text.as_str().as_bytes());
    cat("sha256:", &name)
}

/// The identity does not depend on the order of the files in the archive.
pub proof fn law_id_ignores_file_order(
    manifest: JsonModel,
    a: Seq<FileModel>,
    b: Seq<FileModel>,
    from_a: Seq<Digested>,
    from_b: Seq<Digested>,
)
    requires
        a.to_multiset() == b.to_multiset(),
        lists_files(from_a, a),
        lists_files(from_b, b),
    ensures
        package_id_of(manifest, from_a) == package_id_of(manifest, from_b),
{
    lemma_map_multiset(a, b, |f: FileModel| (f.0, sha256_text(f.1)));
    assert(from_a.to_multiset() == from_b.to_multiset());
    lemma_keys_sorted_unique(from_a, from_b, |d: Digested| digested_key(d));
}

proof fn lemma_files_without(files: Seq<Digested>, k: int)
    requires
        0 <= k < files.len(),
        forall|j: int| 0 <= j < files.len() && j != k ==> (#[trigger] files[j]).0 != files[k].0,
    ensures
        files_object(files) == files_object(files.remove(k)).insert(
            files[k].0,
            JsonModel::Text(files[k].1),
        ),
    decreases files.len(),
{
    if k == files.len() - 1 {
        assert(files.remove(k) =~= files.drop_last());
    } else {
        let first = files.drop_last();
        assert forall|j: int| 0 <= j < first.len() && j != k implies (#[trigger] first[j]).0
            != first[k].0 by {
            assert(first[j] == files[j]);
        }
        lemma_files_without(first, k);
        let rest = files.remove(k);
        assert(rest.drop_last() =~= first.remove(k));
        assert(rest.last() == files.last());
        assert(files_object(files) =~= files_object(rest).insert(
            files[k].0,
            JsonModel::Text(files[k].1),
        ));
    }
}

proof fn lemma_files_in_any_order(a: Seq<Digested>, b: Seq<Digested>)
    requires
        a.to_multiset() == b.to_multiset(),
        forall|i: int, j: int|
            0 <= i < j < a.len() ==> (#[trigger] a[i]).0 != (#[trigger] a[j]).0,
    ensures
        files_object(a) == files_object(b),
    decreases a.len(),
{
    broadcast use vstd::seq_lib::group_to_multiset_ensures;

    vstd::seq_lib::to_multiset_len(a);
    vstd::seq_lib::to_multiset_len(b);
    if a.len() == 0 {
        assert(a =~= b);
    } else {
        let x = a.last();
        assert(a.contains(x));
        assert(b.to_multiset().count(x) > 0);
        assert(b.contains(x));
        let k = choose|k: int| 0 <= k < b.len() && b[k] == x;
        let a1 = a.drop_last();
        let b1 = b.remove(k);
        assert(a1 =~= a.remove(a.len() - 1));
        assert(a1.to_multiset() == b1.to_multiset());
        lemma_files_in_any_order(a1, b1);
        assert forall|j: int| 0 <= j < b.len() && j != k implies (#[trigger] b[j]).0
            != b[k].0 by {
            let y = b[j];
            assert(b1.contains(y)) by {
                assert(y == b1[if j < k {
                    j
                } else {
                    j - 1
                }]);
            }
            assert(b1.to_multiset().count(y) > 0);
            assert(a1.contains(y));
            let i = choose|i: int| 0 <= i < a1.len() && a1[i] == y;
            assert(a[i] == y);
            assert(a[i].0 != a[a.len() - 1].0);
        }
        lemma_files_without(b, k);
    }
}

/// The identity of files with different names does not depend on the order in which they
/// are listed.
pub proof fn law_id_ignores_list_order(
    manifest: JsonModel,
    a: Seq<Digested>,
    b: Seq<Digested>,
)
    requires
        a.to_multiset() == b.to_multiset(),
        forall|i: int, j: int|
            0 <= i < j < a.len() ==> (#[trigger] a[i]).0 != (#[trigger] a[j]).0,
    ensures
        package_id_of(manifest, a) == package_id_of(manifest, b),
{
    lemma_files_in_any_order(a, b);
}

/// A manifest that can be used has all its keys, is of the one known version, and has
/// something to replay and something to check.
pub proof fn law_valid_manifest(m: JsonModel)
    requires
        manifest_error(m) is None,
    ensures
        forall|k: int| 0 <= k < 6 ==> field(m, #[trigger] required_keys()[k]) is Some,
        field(m, "mpkg"@) == Some(JsonModel::Text("0.1"@)),
        steps_fit(list_field(m, "steps"@)),
        list_field(m, "verify"@) is Some,
        list_field(m, "verify"@)->0.len() > 0,
{
    assert forall|k: int| 0 <= k < 6 implies field(m, #[trigger] required_keys()[k]) is Some by {
        lemma_no_missing_key(m, required_keys(), k);
    }
}

/// Each file of an archive stands in the list with the digest of all its data, however much
/// that is; nothing else stands there, and the names ascend.
pub proof fn law_list_holds_every_file(list: Seq<Digested>, files: Seq<FileModel>)
    requires
        lists_files(list, files),
    ensures
        list.len() == files.len(),
        forall|i: int|
            0 <= i < files.len() ==> list.contains(
                ((#[trigger] files[i]).0, sha256_text(files[i].1)),
            ),
        forall|d: Digested| #[trigger]
            list.contains(d) ==> exists|i: int|
                0 <= i < files.len() && d == ((#[trigger] files[i]).0, sha256_text(files[i].1)),
        forall|i: int, j: int|
            0 <= i < j < list.len() ==> !text_lt((#[trigger] list[j]).0, (#[trigger] list[i]).0),
{
    broadcast use vstd::seq_lib::group_to_multiset_ensures;

    let all = digests(files);
    vstd::seq_lib::to_multiset_len(list);
    vstd::seq_lib::to_multiset_len(all);
    assert forall|i: int| 0 <= i < files.len() implies list.contains(
        ((#[trigger] files[i]).0, sha256_text(files[i].1)),
    ) by {
        let d = (files[i].0, sha256_text(files[i].1));
        assert(all[i] == d);
        assert(all.contains(d));
        assert(list.to_multiset().count(d) > 0);
    }
    assert forall|d: Digested| #[trigger] list.contains(d) implies exists|i: int|
        0 <= i < files.len() && d == ((#[trigger] files[i]).0, sha256_text(files[i].1)) by {
        assert(all.to_multiset().count(d) > 0);
        assert(all.contains(d));
        let i = choose|i: int| 0 <= i < all.len() && all[i] == d;
        assert(d == (files[i].0, sha256_text(files[i].1)));
    }
    assert forall|i: int, j: int| 0 <= i < j < list.len() implies !text_lt(
        (#[trigger] list[j]).0,
        (#[trigger] list[i]).0,
    ) by {
        assert(!key_lt(digested_key(list[j]), digested_key(list[i])));
    }
}

/// The list depends on nothing but the digests: data of one file that differs makes a
/// different entry wherever the digests do.
pub proof fn law_digests_tell_files_apart(a: FileModel, b: FileModel)
    ensures
        digests(seq![a]) == digests(seq![b]) <==> a.0 == b.0 && sha256_text(a.1) == sha256_text(
            b.1,
        ),
{
    let (x, y) = (digests(seq![a]), digests(seq![b]));
    assert(x[0] == (a.0, sha256_text(a.1)));
    assert(y[0] == (b.0, sha256_text(b.1)));
    if a.0 == b.0 && sha256_text(a.1) == sha256_text(b.1) {
        assert(x =~= y);
    }
}

/// The object of two lists put together: what the later has counts, and beside it what only
/// the earlier has.
pub proof fn law_files_join(a: Seq<Digested>, b: Seq<Digested>, d: Digested)
    ensures
        files_object(a + b) == files_object(a).union_prefer_right(files_object(b)),
        files_object(seq![d]) == Map::<Seq<char>, JsonModel>::empty().insert(
            d.0,
            JsonModel::Text(d.1),
        ),
    decreases b.len(),
{
    assert(seq![d].drop_last() =~= Seq::<Digested>::empty());
    assert(files_object(seq![d].drop_last()) == Map::<Seq<char>, JsonModel>::empty());
    if b.len() == 0 {
        assert(a + b =~= a);
        assert(files_object(b) == Map::<Seq<char>, JsonModel>::empty());
        assert(files_object(a).union_prefer_right(files_object(b)) =~= files_object(a));
    } else {
        law_files_join(a, b.drop_last(), d);
        assert((a + b).drop_last() =~= a + b.drop_last());
        assert((a + b).last() == b.last());
        assert(files_object(a + b) =~= files_object(a).union_prefer_right(files_object(b)));
    }
}

proof fn lemma_files_object(list: Seq<Digested>)
    ensures
        files_object(list).dom().finite(),
        forall|k: Seq<char>| #[trigger]
            files_object(list).contains_key(k) ==> files_object(list)[k] is Text && exists|i: int|
                0 <= i < list.len() && (#[trigger] list[i]).0 == k && files_object(list)[k]
                    == JsonModel::Text(list[i].1),
        forall|i: int|
            0 <= i < list.len() ==> files_object(list).contains_key((#[trigger] list[i]).0),
    decreases list.len(),
{
    if list.len() > 0 {
        let first = list.drop_last();
        lemma_files_object(first);
        assert forall|k: Seq<char>| #[trigger] files_object(list).contains_key(k) implies (
        files_object(list)[k] is Text && exists|i: int|
            0 <= i < list.len() && (#[trigger] list[i]).0 == k && files_object(list)[k]
                == JsonModel::Text(list[i].1)) by {
            if k == list.last().0 {
                assert(list[list.len() - 1].0 == k);
            } else {
                assert(files_object(first).contains_key(k));
                let i = choose|i: int|
                    0 <= i < first.len() && (#[trigger] first[i]).0 == k && files_object(first)[k]
                        == JsonModel::Text(first[i].1);
                assert(list[i] == first[i]);
            }
        }
        assert forall|i: int| 0 <= i < list.len() implies files_object(list).contains_key(
            (#[trigger] list[i]).0,
        ) by {
            if i < first.len() {
                assert(first[i] == list[i]);
            }
        }
    }
}

/// No two files have one name.
pub open spec fn names_differ(files: Seq<FileModel>) -> bool {
    forall|i: int, j: int|
        0 <= i < j < files.len() ==> (#[trigger] files[i]).0 != (#[trigger] files[j]).0
}

/// Where no two files have one name, the object of their list has for each of them the
/// digest of all its data, under its name, and nothing else.
pub proof fn law_object_holds_every_file(list: Seq<Digested>, files: Seq<FileModel>)
    requires
        lists_files(list, files),
        names_differ(files),
    ensures
        forall|i: int|
            0 <= i < files.len() ==> {
                &&& files_object(list).contains_key((#[trigger] files[i]).0)
                &&& files_object(list)[files[i].0] == JsonModel::Text(sha256_text(files[i].1))
            },
        forall|k: Seq<char>| #[trigger]
            files_object(list).contains_key(k) ==> exists|i: int|
                0 <= i < files.len() && (#[trigger] files[i]).0 == k,
{
    law_list_holds_every_file(list, files);
    lemma_files_object(list);
    assert forall|i: int| 0 <= i < files.len() implies {
        &&& files_object(list).contains_key((#[trigger] files[i]).0)
        &&& files_object(list)[files[i].0] == JsonModel::Text(sha256_text(files[i].1))
    } by {
        let d = (files[i].0, sha256_text(files[i].1));
        assert(list.contains(d));
        let n = choose|n: int| 0 <= n < list.len() && list[n] == d;
        assert(files_object(list).contains_key(list[n].0));
        let k = choose|k: int|
            0 <= k < list.len() && (#[trigger] list[k]).0 == d.0 && files_object(list)[d.0]
                == JsonModel::Text(list[k].1);
        assert(list.contains(list[k]));
        let j = choose|j: int|
            0 <= j < files.len() && list[k] == ((#[trigger] files[j]).0, sha256_text(files[j].1));
        if i < j {
            assert(files[i].0 != files[j].0);
        }
        if j < i {
            assert(files[j].0 != files[i].0);
        }
    }
    assert forall|k: Seq<char>| #[trigger] files_object(list).contains_key(k) implies exists|i: int|
        0 <= i < files.len() && (#[trigger] files[i]).0 == k by {
        let n = choose|n: int|
            0 <= n < list.len() && (#[trigger] list[n]).0 == k && files_object(list)[k]
                == JsonModel::Text(list[n].1);
        assert(list.contains(list[n]));
        let i = choose|i: int|
            0 <= i < files.len() && list[n] == ((#[trigger] files[i]).0, sha256_text(files[i].1));
        assert(files[i].0 == k);
    }
}

/// The identity of a package is the digest, with `sha256:` before it, of the text of an
/// object that has under `manifest` the manifest and under `files` the digest of each file.
pub proof fn law_id_is_of_manifest_and_files(
    manifest: JsonModel,
    list: Seq<Digested>,
    files: Seq<FileModel>,
    object: Map<Seq<char>, JsonModel>,
)
    requires
        lists_files(list, files),
        names_differ(files),
        forall|k: Seq<char>| #[trigger]
            object.contains_key(k) <==> exists|i: int|
                0 <= i < files.len() && (#[trigger] files[i]).0 == k,
        forall|i: int|
            0 <= i < files.len() ==> object[(#[trigger] files[i]).0] == JsonModel::Text(
                sha256_text(files[i].1),
            ),
    ensures
        package_id_of(manifest, list) == "sha256:"@ + sha256_text(
            encode_utf8(
                json_text(
                    JsonModel::Object(
                        Map::<Seq<char>, JsonModel>::empty().insert("manifest"@, manifest).insert(
                            "files"@,
                            JsonModel::Object(object),
                        ),
                    ),
                ),
            ),
        ),
{
    law_object_holds_every_file(list, files);
    let made = files_object(list);
    assert forall|k: Seq<char>| made.contains_key(k) <==> object.contains_key(k) by {
        if object.contains_key(k) {
            let i = choose|i: int| 0 <= i < files.len() && (#[trigger] files[i]).0 == k;
            assert(made.contains_key(files[i].0));
        }
    }
    assert forall|k: Seq<char>| made.contains_key(k) implies made[k] == object[k] by {
        let i = choose|i: int| 0 <= i < files.len() && (#[trigger] files[i]).0 == k;
        assert(made[files[i].0] == object[files[i].0]);
    }
    assert(made =~= object);
    assert(package_model(manifest, list)->Object_0 =~= Map::<Seq<char>, JsonModel>::empty().insert(
        "manifest"@,
        manifest,
    ).insert("files"@, JsonModel::Object(object)));
}

proof fn lemma_package_integers(manifest: JsonModel, list: Seq<Digested>)
    requires
        integers_only(manifest),
    ensures
        integers_only(package_model(manifest, list)),
{
    reveal_strlit("manifest");
    reveal_strlit("files");
    assert("manifest"@.len() != "files"@.len());
    lemma_files_object(list);
    let object = JsonModel::Object(files_object(list));
    assert(integers_only(object)) by {
        assert forall|k: Seq<char>| #[trigger]
            files_object(list).contains_key(k) implies integers_only(files_object(list)[k]) by {
            assert(files_object(list)[k] is Text);
        }
    }
    let fields = package_model(manifest, list)->Object_0;
    assert forall|k: Seq<char>| #[trigger] fields.contains_key(k) implies integers_only(
        fields[k],
    ) by {
        assert(k == "manifest"@ || k == "files"@);
    }
}

/// A package that differs in its manifest or in a file is told apart: where the manifests
/// differ, or two files of one name have different digests, what stands for the one
/// package is not what stands for the other, and, with integers for numbers, the texts
/// that the identities are computed from differ too.
pub proof fn law_changed_package_is_told_apart(
    manifest: JsonModel,
    files: Seq<FileModel>,
    list: Seq<Digested>,
    other: JsonModel,
    other_files: Seq<FileModel>,
    other_list: Seq<Digested>,
    i: int,
    j: int,
)
    requires
        lists_files(list, files),
        lists_files(other_list, other_files),
        names_differ(files),
        names_differ(other_files),
        0 <= i < files.len(),
        0 <= j < other_files.len(),
        manifest != other || (files[i].0 == other_files[j].0 && sha256_text(files[i].1)
            != sha256_text(other_files[j].1)),
    ensures
        package_model(manifest, list) != package_model(other, other_list),
        integers_only(manifest) && integers_only(other) ==> layout(package_model(manifest, list))
            != layout(package_model(other, other_list)),
{
    reveal_strlit("manifest");
    reveal_strlit("files");
    assert("manifest"@.len() != "files"@.len());
    law_object_holds_every_file(list, files);
    law_object_holds_every_file(other_list, other_files);
    let (a, b) = (package_model(manifest, list), package_model(other, other_list));
    assert(a->Object_0["manifest"@] == manifest && b->Object_0["manifest"@] == other);
    assert(a->Object_0["files"@] == JsonModel::Object(files_object(list)));
    assert(b->Object_0["files"@] == JsonModel::Object(files_object(other_list)));
    if manifest == other {
        assert(files_object(list)[files[i].0] == JsonModel::Text(sha256_text(files[i].1)));
        assert(files_object(other_list)[other_files[j].0] == JsonModel::Text(
            sha256_text(other_files[j].1),
        ));
    }
    if integers_only(manifest) && integers_only(other) {
        lemma_package_integers(manifest, list);
        lemma_package_integers(other, other_list);
        law_layout_tells_the_value(a, b);
    }
}

/// A package with one file more, or one less, is told apart too.
pub proof fn law_missing_file_is_told_apart(
    manifest: JsonModel,
    files: Seq<FileModel>,
    list: Seq<Digested>,
    other: JsonModel,
    other_files: Seq<FileModel>,
    other_list: Seq<Digested>,
    i: int,
)
    requires
        lists_files(list, files),
        lists_files(other_list, other_files),
        names_differ(files),
        names_differ(other_files),
        0 <= i < files.len(),
        forall|j: int| 0 <= j < other_files.len() ==> (#[trigger] other_files[j]).0 != files[i].0,
    ensures
        package_model(manifest, list) != package_model(other, other_list),
        integers_only(manifest) && integers_only(other) ==> layout(package_model(manifest, list))
            != layout(package_model(other, other_list)),
{
    reveal_strlit("manifest");
    reveal_strlit("files");
    assert("manifest"@.len() != "files"@.len());
    law_object_holds_every_file(list, files);
    law_object_holds_every_file(other_list, other_files);
    let (a, b) = (package_model(manifest, list), package_model(other, other_list));
    assert(a->Object_0["files"@] == JsonModel::Object(files_object(list)));
    assert(b->Object_0["files"@] == JsonModel::Object(files_object(other_list)));
    assert(files_object(list).contains_key(files[i].0));
    assert(!files_object(other_list).contains_key(files[i].0));
    if integers_only(manifest) && integers_only(other) {
        lemma_package_integers(manifest, list);
        lemma_package_integers(other, other_list);
        law_layout_tells_the_value(a, b);
    }
}

/// An identity is `sha256:` and 64 small hexadecimal characters.
pub proof fn law_form_of_an_identity(manifest: JsonModel, list: Seq<Digested>)
    ensures
        package_id_of(manifest, list).len() == 71,
        "sha256:"@.is_prefix_of(package_id_of(manifest, list)),
        is_digest_name(package_id_of(manifest, list).skip(7)),
        is_package_id(package_id_of(manifest, list)),
{
    reveal_strlit("sha256:");
    let data = encode_utf8(json_text(package_model(manifest, list)));
    crate::digest::lemma_digest_name(data);
    let id = package_id_of(manifest, list);
    assert(id.subrange(0, 7) =~= "sha256:"@);
    assert(id.skip(7) =~= sha256_text(data));
}

/// A part that can be read: a file, and a manifest only where it reads.
pub open spec fn part_reads(p: PartModel) -> bool {
    p matches PartModel::File(name, data) && (name == "mpkg.json"@ ==> json_parse(data) is Ok)
}

/// What one part more adds, where it can be read.
proof fn lemma_part_added(parts: Seq<PartModel>, p: PartModel)
    requires
        parts_told(parts) is Ok,
        part_reads(p),
    ensures
        parts_told(parts.push(p)) is Ok,
        parts_told(parts.push(p))->Ok_0.1 == parts_told(parts)->Ok_0.1.push(
            (p->File_0, p->File_1),
        ),
        p->File_0 == "mpkg.json"@ ==> parts_told(parts.push(p))->Ok_0.0 == Some(
            json_parse(p->File_1)->Ok_0,
        ),
        p->File_0 != "mpkg.json"@ ==> parts_told(parts.push(p))->Ok_0.0 == parts_told(
            parts,
        )->Ok_0.0,
{
    let more = parts.push(p);
    assert(more.drop_last() =~= parts);
    assert(more.last() == p);
    let (manifest, files) = parts_told(parts)->Ok_0;
    let (name, data) = (p->File_0, p->File_1);
    assert(p == PartModel::File(name, data));
    if name == "mpkg.json"@ {
        assert(json_parse(data) is Ok);
    }
}

/// The last manifest among the parts, if any.
spec fn last_manifest(parts: Seq<PartModel>) -> Option<JsonModel>
    decreases parts.len(),
{
    if parts.len() == 0 {
        None
    } else if parts.last()->File_0 == "mpkg.json"@ {
        Some(json_parse(parts.last()->File_1)->Ok_0)
    } else {
        last_manifest(parts.drop_last())
    }
}

proof fn lemma_last_manifest(parts: Seq<PartModel>, k: int)
    ensures
        0 <= k < parts.len() && parts[k]->File_0 == "mpkg.json"@ && (forall|j: int|
            k < j < parts.len() ==> (#[trigger] parts[j])->File_0 != "mpkg.json"@)
            ==> last_manifest(parts) == Some(json_parse(parts[k]->File_1)->Ok_0),
        (forall|j: int| 0 <= j < parts.len() ==> (#[trigger] parts[j])->File_0 != "mpkg.json"@)
            ==> last_manifest(parts) is None,
    decreases parts.len(),
{
    if parts.len() > 0 {
        let first = parts.drop_last();
        let n = parts.len() - 1;
        lemma_last_manifest(first, k);
        assert(parts.last() == parts[n]);
        assert forall|j: int| 0 <= j < first.len() implies #[trigger] first[j] == parts[j] by {}
    }
}

proof fn lemma_parts_read(parts: Seq<PartModel>)
    requires
        forall|i: int| 0 <= i < parts.len() ==> part_reads(#[trigger] parts[i]),
    ensures
        parts_told(parts) is Ok,
        parts_told(parts)->Ok_0.0 == last_manifest(parts),
        parts_told(parts)->Ok_0.1.len() == parts.len(),
        forall|i: int|
            0 <= i < parts.len() ==> parts[i] == PartModel::File(
                (#[trigger] parts_told(parts)->Ok_0.1[i]).0,
                parts_told(parts)->Ok_0.1[i].1,
            ),
    decreases parts.len(),
{
    if parts.len() > 0 {
        let first = parts.drop_last();
        let p = parts[parts.len() - 1];
        assert forall|i: int| 0 <= i < first.len() implies part_reads(#[trigger] first[i]) by {
            assert(first[i] == parts[i]);
        }
        lemma_parts_read(first);
        assert(part_reads(p));
        lemma_part_added(first, p);
        assert(parts =~= first.push(p));
        let files = parts_told(parts)->Ok_0.1;
        assert forall|i: int| 0 <= i < parts.len() implies parts[i] == PartModel::File(
            (#[trigger] files[i]).0,
            files[i].1,
        ) by {
            if i < first.len() {
                assert(files[i] == parts_told(first)->Ok_0.1[i]);
                assert(first[i] == parts[i]);
            }
        }
    }
}

/// Each file of an archive is read, in its place, with its name and all its data; the
/// manifest is the last file of its name.
pub proof fn law_every_file_is_read(parts: Seq<PartModel>, k: int)
    requires
        forall|i: int| 0 <= i < parts.len() ==> part_reads(#[trigger] parts[i]),
        0 <= k < parts.len(),
        parts[k]->File_0 == "mpkg.json"@,
        forall|j: int| k < j < parts.len() ==> (#[trigger] parts[j])->File_0 != "mpkg.json"@,
    ensures
        package_told(parts) matches Ok((manifest, files)) && {
            &&& json_parse(parts[k]->File_1) == Ok::<JsonModel, Seq<char>>(manifest)
            &&& files.len() == parts.len()
            &&& forall|i: int|
                0 <= i < parts.len() ==> parts[i] == PartModel::File(
                    (#[trigger] files[i]).0,
                    files[i].1,
                )
        },
{
    lemma_parts_read(parts);
    lemma_last_manifest(parts, k);
    assert(part_reads(parts[k]));
}

/// An archive without a manifest is told so; the first part that cannot be opened or read,
/// and the first manifest that does not read, end the reading with what and why, whatever
/// follows.
pub proof fn law_first_bad_part_is_told(
    before: Seq<PartModel>,
    e: Seq<char>,
    name: Seq<char>,
    data: Seq<u8>,
    behind: Seq<PartModel>,
)
    requires
        forall|i: int| 0 <= i < before.len() ==> part_reads(#[trigger] before[i]),
    ensures
        package_told(before + seq![PartModel::Closed(e)] + behind) == Err::<
            (JsonModel, Seq<FileModel>),
            Seq<char>,
        >("zip entry "@ + decimal_text(before.len()) + ": "@ + e),
        package_told(before + seq![PartModel::Unreadable(name, e)] + behind) == Err::<
            (JsonModel, Seq<FileModel>),
            Seq<char>,
        >("read "@ + name + ": "@ + e),
        json_parse(data) == Err::<JsonModel, Seq<char>>(e) ==> package_told(
            before + seq![PartModel::File("mpkg.json"@, data)] + behind,
        ) == Err::<(JsonModel, Seq<FileModel>), Seq<char>>("manifest parse: "@ + e),
        (forall|k: int|
            0 <= k < before.len() ==> (#[trigger] before[k])->File_0 != "mpkg.json"@)
            ==> package_told(before) == Err::<(JsonModel, Seq<FileModel>), Seq<char>>(
            "zip missing mpkg.json"@,
        ),
{
    lemma_parts_read(before);
    lemma_last_manifest(before, 0);
    lemma_bad_part(before, PartModel::Closed(e), behind);
    lemma_bad_part(before, PartModel::Unreadable(name, e), behind);
    if json_parse(data) == Err::<JsonModel, Seq<char>>(e) {
        lemma_bad_part(before, PartModel::File("mpkg.json"@, data), behind);
    }
}

proof fn lemma_bad_part(before: Seq<PartModel>, p: PartModel, behind: Seq<PartModel>)
    requires
        parts_told(before.push(p)) is Err,
    ensures
        parts_told(before + seq![p] + behind) == parts_told(before.push(p)),
        before.push(p).drop_last() == before,
        before.push(p).last() == p,
{
    let all = before + seq![p] + behind;
    let n = before.len() as int + 1;
    assert(all.take(n) =~= before.push(p));
    assert(before.push(p).drop_last() =~= before);
    lemma_told_error(all, n);
}

/// The bytes of a package are read as its archive is; where they are no archive, it is told
/// why.
pub proof fn law_bytes_of_a_package(bytes: Seq<u8>, parts: Seq<PartModel>, e: Seq<char>)
    ensures
        zip_read(bytes) == Ok::<Seq<PartModel>, Seq<char>>(parts) ==> zip_told(bytes)
            == package_told(parts),
        zip_read(bytes) == Err::<Seq<PartModel>, Seq<char>>(e) ==> zip_told(bytes) == Err::<
            (JsonModel, Seq<FileModel>),
            Seq<char>,
        >("zip: "@ + e),
{
}

/// A manifest can be used exactly where it has its six keys, is of version 0.1, and lists
/// at least one step, each with what to run, and at least one check.
pub proof fn law_usable_manifests(fields: Map<Seq<char>, JsonModel>)
    ensures
        manifest_error(JsonModel::Object(fields)) is None <==> {
            &&& fields.contains_key("mpkg"@) && fields["mpkg"@] == JsonModel::Text("0.1"@)
            &&& fields.contains_key("name"@)
            &&& fields.contains_key("version"@)
            &&& fields.contains_key("intent"@)
            &&& fields.contains_key("steps"@) && fields["steps"@] is Array
            &&& fields["steps"@]->Array_0.len() > 0
            &&& forall|i: int|
                0 <= i < fields["steps"@]->Array_0.len() ==> {
                    &&& (#[trigger] fields["steps"@]->Array_0[i]) is Object
                    &&& fields["steps"@]->Array_0[i]->Object_0.contains_key("run"@)
                }
            &&& fields.contains_key("verify"@) && fields["verify"@] is Array
            &&& fields["verify"@]->Array_0.len() > 0
        },
{
    let m = JsonModel::Object(fields);
    let keys = required_keys();
    lemma_missing_key(m);
    if list_field(m, "steps"@) is Some {
        let items = list_field(m, "steps"@)->0;
        if steps_fit(Some(items)) {
            assert forall|i: int| 0 <= i < items.len() implies {
                &&& (#[trigger] items[i]) is Object
                &&& items[i]->Object_0.contains_key("run"@)
            } by {
                assert(field(items[i], "run"@) is Some);
            }
        }
        if forall|i: int|
            0 <= i < items.len() ==> (#[trigger] items[i]) is Object
                && items[i]->Object_0.contains_key("run"@) {
            assert forall|i: int| 0 <= i < items.len() implies field(
                #[trigger] items[i],
                "run"@,
            ) is Some by {
                assert(items[i] is Object);
            }
        }
    }
}

proof fn lemma_missing_key(m: JsonModel)
    ensures
        missing_key(m, required_keys()) == if field(m, "mpkg"@) is None {
            Some("mpkg"@)
        } else if field(m, "name"@) is None {
            Some("name"@)
        } else if field(m, "version"@) is None {
            Some("version"@)
        } else if field(m, "intent"@) is None {
            Some("intent"@)
        } else if field(m, "steps"@) is None {
            Some("steps"@)
        } else if field(m, "verify"@) is None {
            Some("verify"@)
        } else {
            None
        },
{
    reveal_with_fuel(missing_key, 7);
    let keys = required_keys();
    assert(keys.skip(1)[0] == "name"@);
    assert(keys.skip(1).skip(1)[0] == "version"@);
    assert(keys.skip(1).skip(1).skip(1)[0] == "intent"@);
    assert(keys.skip(1).skip(1).skip(1).skip(1)[0] == "steps"@);
    assert(keys.skip(1).skip(1).skip(1).skip(1).skip(1)[0] == "verify"@);
    assert(keys.skip(1).skip(1).skip(1).skip(1).skip(1).skip(1).len() == 0);
}

/// What is said of a manifest that cannot be used: the first of its keys that is missing;
/// then the version, where it is not the one; then that there is nothing to replay, or a
/// step without anything to run; then that there is nothing to check.
pub proof fn law_what_is_wrong_with_a_manifest(m: JsonModel)
    ensures
        ({
            let e = manifest_error(m);
            if field(m, "mpkg"@) is None {
                e == Some("manifest missing: "@ + "mpkg"@)
            } else if field(m, "name"@) is None {
                e == Some("manifest missing: "@ + "name"@)
            } else if field(m, "version"@) is None {
                e == Some("manifest missing: "@ + "version"@)
            } else if field(m, "intent"@) is None {
                e == Some("manifest missing: "@ + "intent"@)
            } else if field(m, "steps"@) is None {
                e == Some("manifest missing: "@ + "steps"@)
            } else if field(m, "verify"@) is None {
                e == Some("manifest missing: "@ + "verify"@)
            } else if field(m, "mpkg"@) != Some(JsonModel::Text("0.1"@)) {
                e == Some("unsupported mpkg version: "@ + json_text(field(m, "mpkg"@)->0))
            } else if !(field(m, "steps"@)->0 is Array) || field(m, "steps"@)->0->Array_0.len() == 0
                || exists|i: int|
                0 <= i < field(m, "steps"@)->0->Array_0.len() && field(
                    #[trigger] field(m, "steps"@)->0->Array_0[i],
                    "run"@,
                ) is None {
                e == Some("steps must be non-empty list of {run}"@)
            } else if !(field(m, "verify"@)->0 is Array) || field(m, "verify"@)->0->Array_0.len()
                == 0 {
                e == Some("verify must be non-empty"@)
            } else {
                e is None
            }
        }),
{
    lemma_missing_key(m);
}

/// What stands for a package, whatever its files are called: under `manifest` its manifest,
/// under `files` the object of its list; its identity is the digest of that text, with
/// `sha256:` before it.
pub proof fn law_what_stands_for_a_package(manifest: JsonModel, list: Seq<Digested>)
    ensures
        package_model(manifest, list) == JsonModel::Object(
            Map::<Seq<char>, JsonModel>::empty().insert("manifest"@, manifest).insert(
                "files"@,
                JsonModel::Object(files_object(list)),
            ),
        ),
        package_id_of(manifest, list) == "sha256:"@ + sha256_text(
            encode_utf8(json_text(package_model(manifest, list))),
        ),
{
    assert(package_model(manifest, list)->Object_0 =~= Map::<Seq<char>, JsonModel>::empty().insert(
        "manifest"@,
        manifest,
    ).insert("files"@, JsonModel::Object(files_object(list))));
}

/// A list in order has its names ascending, and under one name its digests.
pub proof fn law_list_of_files_is_in_order(list: Seq<Digested>, i: int, j: int)
    requires
        digests_sorted(list),
        0 <= i < j < list.len(),
    ensures
        text_lt(list[i].0, list[j].0) || (list[i].0 == list[j].0 && !text_lt(
            list[j].1,
            list[i].1,
        )),
{
    let (a, b) = (list[i], list[j]);
    assert(!key_lt(digested_key(b), digested_key(a)));
    crate::order::lemma_text_lt_total(a.0, b.0);
}

/// Files, parts and lists are seen as they are.
pub proof fn law_files_are_seen(
    entries: Seq<ZipEntry>,
    parts: Seq<ZipPart>,
    list: Seq<(String, String)>,
)
    ensures
        files_of(entries).len() == entries.len(),
        forall|i: int|
            0 <= i < entries.len() ==> #[trigger] files_of(entries)[i] == (
                entries[i].name@,
                entries[i].data@,
            ),
        parts_of(parts).len() == parts.len(),
        forall|i: int|
            0 <= i < parts.len() ==> #[trigger] parts_of(parts)[i] == match parts[i] {
                ZipPart::Closed(e) => PartModel::Closed(e@),
                ZipPart::Unreadable(name, e) => PartModel::Unreadable(name@, e@),
                ZipPart::File(name, data) => PartModel::File(name@, data@),
            },
        digested_of(list).len() == list.len(),
        forall|i: int|
            0 <= i < list.len() ==> #[trigger] digested_of(list)[i] == (list[i].0@, list[i].1@),
{
}

} // verus!
