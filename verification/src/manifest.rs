//! Project manifests: the `metacat.json` file that lists the files of a
//! project, directly or through included folders.
use vstd::prelude::*;
use crate::text::{push_char, push_str, text_eq};

verus! {

/// A JSON value as a manifest is read: numbers are kept without their
/// value, which nothing here reads, and the fields of an object are those
/// of a map, each name once.
#[derive(Debug)]
pub enum Json {
    Null,
    Bool(bool),
    Number,
    String(String),
    Array(Vec<Json>),
    /// The fields of an object, each name once.
    Object(Vec<(String, Json)>),
}

/// A JSON value as a plain value.
pub enum JsonV {
    Null,
    Bool(bool),
    Number,
    String(Seq<char>),
    Array(Seq<JsonV>),
    Object(Seq<(Seq<char>, JsonV)>),
}

/// The plain value of a JSON value.
pub open spec fn json_view(j: Json) -> JsonV
    decreases j, 2int,
{
    match j {
        Json::Null => JsonV::Null,
        Json::Bool(b) => JsonV::Bool(b),
        Json::Number => JsonV::Number,
        Json::String(s) => JsonV::String(s@),
        Json::Array(v) => JsonV::Array(jsons_view(v@)),
        Json::Object(fs) => JsonV::Object(fields_view(fs@)),
    }
}

/// The plain values of a list of JSON values.
pub open spec fn jsons_view(v: Seq<Json>) -> Seq<JsonV>
    decreases v, 0int,
{
    if v.len() == 0 {
        Seq::empty()
    } else {
        jsons_view(v.drop_last()).push(json_view(v.last()))
    }
}

/// The plain values of a list of fields.
pub open spec fn fields_view(v: Seq<(String, Json)>) -> Seq<(Seq<char>, JsonV)>
    decreases v, 1int,
{
    if v.len() == 0 {
        Seq::empty()
    } else {
        fields_view(v.drop_last()).push((v.last().0@, json_view(v.last().1)))
    }
}

/// The value of the first field named `key` of an object; nothing for
/// anything else.
pub open spec fn field_spec(j: JsonV, key: Seq<char>) -> Option<JsonV> {
    match j {
        JsonV::Object(fs) => first_field(fs, key),
        _ => None,
    }
}

/// The value of the first field named `key`.
pub open spec fn first_field(fs: Seq<(Seq<char>, JsonV)>, key: Seq<char>) -> Option<JsonV>
    decreases fs.len(),
{
    if fs.len() == 0 {
        None
    } else if fs[0].0 == key {
        Some(fs[0].1)
    } else {
        first_field(fs.drop_first(), key)
    }
}

/// The strings of a list of values, in order; other values are skipped.
pub open spec fn strings_of(items: Seq<JsonV>) -> Seq<Seq<char>>
    decreases items.len(),
{
    if items.len() == 0 {
        Seq::empty()
    } else {
        strings_of(items.drop_last()) + match items.last() {
            JsonV::String(s) => seq![s],
            _ => Seq::empty(),
        }
    }
}

/// The strings of the array under `key`; none when there is no such array.
pub open spec fn string_list(j: JsonV, key: Seq<char>) -> Seq<Seq<char>> {
    match field_spec(j, key) {
        Some(JsonV::Array(items)) => strings_of(items),
        _ => Seq::empty(),
    }
}

/// A path of the manifest made absolute against `root`, as `Path::join`
/// does on Unix: an absolute path stays as it is, a relative one follows
/// `root` and a separator, unless `root` is empty or ends in one.
pub open spec fn resolved_path(root: Seq<char>, path: Seq<char>) -> Seq<char> {
    if path.len() > 0 && path[0] == '/' {
        path
    } else if root.len() == 0 || root.last() == '/' {
        root + path
    } else {
        root + seq!['/'] + path
    }
}

/// A pattern of files of a project, and the folder it is relative to.
#[derive(Debug)]
pub struct ManifestEntry {
    pub root: String,
    pub pattern: String,
}

/// The entries of patterns `ps`, each relative to `root`.
pub open spec fn entries_at(root: Seq<char>, ps: Seq<Seq<char>>) -> Seq<(Seq<char>, Seq<char>)> {
    ps.map_values(|p: Seq<char>| (root, p))
}

/// The entries of the includes `xs` of a manifest in `root`: for each
/// object with a string `folder` and an array `files`, the strings of
/// `files`, relative to the folder resolved against `root`.
pub open spec fn include_entries(root: Seq<char>, xs: Seq<JsonV>) -> Seq<(Seq<char>, Seq<char>)>
    decreases xs.len(),
{
    if xs.len() == 0 {
        Seq::empty()
    } else {
        include_entries(root, xs.drop_last()) + match (field_spec(xs.last(), "folder"@), field_spec(xs.last(), "files"@)) {
            (Some(JsonV::String(folder)), Some(JsonV::Array(files))) => entries_at(resolved_path(root, folder), strings_of(files)),
            _ => Seq::empty(),
        }
    }
}

/// The entries of a manifest in `root`: the strings of its `files`, then
/// those of its `include` objects.
pub open spec fn manifest_entries_spec(root: Seq<char>, j: JsonV) -> Seq<(Seq<char>, Seq<char>)> {
    entries_at(root, string_list(j, "files"@)) + match field_spec(j, "include"@) {
        Some(JsonV::Array(xs)) => include_entries(root, xs),
        _ => Seq::empty(),
    }
}

/// The plain values of a list of entries.
pub open spec fn entries_view(v: Seq<ManifestEntry>) -> Seq<(Seq<char>, Seq<char>)> {
    v.map_values(|e: ManifestEntry| (e.root@, e.pattern@))
}

/// The message of a manifest without entries.
pub open spec fn no_entries_message() -> Seq<char> {
    "metacat.json must contain files or include entries"@
}

/// The field named `key` of an object.
fn field<'a>(j: &'a Json, key: &str) -> (r: Option<&'a Json>)
    ensures
        match r {
            Some(x) => field_spec(json_view(*j), key@) == Some(json_view(*x)),
            None => field_spec(json_view(*j), key@) is None,
        },
{
    match j {
        Json::Object(fs) => {
            let ghost fv = fields_view(fs@);
            proof {
                lemma_fields_view(fs@);
                assert(json_view(*j) == JsonV::Object(fv));
                assert(fv.subrange(0, fv.len() as int) =~= fv);
            }
            let mut i: usize = 0;
            while i < fs.len()
                invariant
                    i <= fs@.len(),
                    fv == fields_view(fs@),
                    fv.len() == fs@.len(),
                    forall|k: int| 0 <= k < fs@.len() ==> #[trigger] fv[k] == (fs@[k].0@, json_view(fs@[k].1)),
                    first_field(fv, key@) == first_field(fv.subrange(i as int, fv.len() as int), key@),
                    json_view(*j) == JsonV::Object(fv),
                decreases fs@.len() - i,
            {
                let ghost sub = fv.subrange(i as int, fv.len() as int);
                assert(sub[0] == fv[i as int]);
                if text_eq(fs[i].0.as_str(), key) {
                    assert(first_field(sub, key@) == Some(sub[0].1));
                    return Some(&fs[i].1);
                }
                assert(sub.drop_first() =~= fv.subrange(i + 1, fv.len() as int));
                i = i + 1;
            }
            proof {
                assert(fv.subrange(fs@.len() as int, fv.len() as int).len() == 0);
            }
            None
        },
        _ => None,
    }
}

/// The plain values of a list of fields, one by one.
proof fn lemma_fields_view(v: Seq<(String, Json)>)
    ensures
        fields_view(v).len() == v.len(),
        forall|k: int| 0 <= k < v.len() ==> #[trigger] fields_view(v)[k] == (v[k].0@, json_view(v[k].1)),
    decreases v.len(),
{
    if v.len() > 0 {
        lemma_fields_view(v.drop_last());
        assert forall|k: int| 0 <= k < v.len() implies #[trigger] fields_view(v)[k] == (v[k].0@, json_view(v[k].1)) by {
            if k < v.len() - 1 {
                assert(v.drop_last()[k] == v[k]);
            }
        }
    }
}

/// The plain values of a list of JSON values, one by one.
proof fn lemma_jsons_view(v: Seq<Json>)
    ensures
        jsons_view(v).len() == v.len(),
        forall|k: int| 0 <= k < v.len() ==> #[trigger] jsons_view(v)[k] == json_view(v[k]),
    decreases v.len(),
{
    if v.len() > 0 {
        lemma_jsons_view(v.drop_last());
        assert forall|k: int| 0 <= k < v.len() implies #[trigger] jsons_view(v)[k] == json_view(v[k]) by {
            if k < v.len() - 1 {
                assert(v.drop_last()[k] == v[k]);
            }
        }
    }
}

/// Appends an entry relative to `root` for each string of `items`.
fn push_entries(out: &mut Vec<ManifestEntry>, root: &String, items: &Vec<Json>)
    ensures
        entries_view(final(out)@) == entries_view(old(out)@) + entries_at(root@, strings_of(jsons_view(items@))),
{
    let ghost start = entries_view(out@);
    let ghost iv = jsons_view(items@);
    proof {
        lemma_jsons_view(items@);
        assert(iv.take(0) =~= Seq::<JsonV>::empty());
        assert(start + entries_at(root@, strings_of(iv.take(0))) =~= start);
    }
    let mut i: usize = 0;
    while i < items.len()
        invariant
            i <= items@.len(),
            iv == jsons_view(items@),
            iv.len() == items@.len(),
            forall|k: int| 0 <= k < items@.len() ==> #[trigger] iv[k] == json_view(items@[k]),
            entries_view(out@) == start + entries_at(root@, strings_of(iv.take(i as int))),
        decreases items@.len() - i,
    {
        let ghost before = entries_view(out@);
        proof {
            assert(iv.take(i + 1).drop_last() =~= iv.take(i as int));
            assert(iv.take(i + 1).last() == iv[i as int]);
        }
        match &items[i] {
            Json::String(s) => {
                out.push(ManifestEntry { root: root.clone(), pattern: s.clone() });
                proof {
                    assert(iv[i as int] == JsonV::String(s@));
                    assert(strings_of(iv.take(i + 1)) == strings_of(iv.take(i as int)) + seq![s@]);
                    assert(entries_at(root@, strings_of(iv.take(i as int)) + seq![s@]) =~= entries_at(
                        root@,
                        strings_of(iv.take(i as int)),
                    ).push((root@, s@)));
                    assert(entries_view(out@) =~= before.push((root@, s@)));
                }
            },
            _ => {
                proof {
                    assert(strings_of(iv.take(i + 1)) =~= strings_of(iv.take(i as int)));
                }
            },
        }
        i = i + 1;
    }
    proof {
        assert(iv.take(items@.len() as int) =~= iv);
    }
}

/// A path of the manifest made absolute against `root`.
pub fn resolve_manifest_path(root: &str, path: &str) -> (r: String)
    ensures
        r@ == resolved_path(root@, path@),
{
    let pc = crate::text::chars_of(path);
    if pc.len() > 0 && pc[0] == '/' {
        return path.to_string();
    }
    let rc = crate::text::chars_of(root);
    let mut r = root.to_string();
    if rc.len() > 0 && rc[rc.len() - 1] != '/' {
        push_char(&mut r, '/');
    }
    push_str(&mut r, path);
    r
}

/// The entries of a manifest read as `j` from the folder `root`: the
/// strings of its `files` array, relative to `root`, then for each object
/// of its `include` array with a string `folder` and an array `files`, the
/// strings of `files`, relative to the folder. A manifest without any is
/// an error.
pub fn manifest_entries(root: &str, j: &Json) -> (r: Result<Vec<ManifestEntry>, String>)
    ensures
        match r {
            Ok(v) => entries_view(v@) == manifest_entries_spec(root@, json_view(*j)) && v@.len() > 0,
            Err(m) => manifest_entries_spec(root@, json_view(*j)).len() == 0 && m@ == no_entries_message(),
        },
{
    let root_s = root.to_string();
    let mut out: Vec<ManifestEntry> = Vec::new();
    match field(j, "files") {
        Some(Json::Array(items)) => push_entries(&mut out, &root_s, items),
        _ => {},
    }
    proof {
        assert(entries_view(out@) =~= entries_at(root@, string_list(json_view(*j), "files"@)));
    }
    let ghost head = entries_view(out@);
    match field(j, "include") {
        Some(Json::Array(xs)) => {
            let ghost xv = jsons_view(xs@);
            proof {
                lemma_jsons_view(xs@);
                assert(xv.take(0) =~= Seq::<JsonV>::empty());
                assert(head + include_entries(root@, xv.take(0)) =~= head);
            }
            let mut i: usize = 0;
            while i < xs.len()
                invariant
                    i <= xs@.len(),
                    xv == jsons_view(xs@),
                    xv.len() == xs@.len(),
                    forall|k: int| 0 <= k < xs@.len() ==> #[trigger] xv[k] == json_view(xs@[k]),
                    entries_view(out@) == head + include_entries(root@, xv.take(i as int)),
                decreases xs@.len() - i,
            {
                let ghost before = entries_view(out@);
                let x = &xs[i];
                proof {
                    assert(xv.take(i + 1).drop_last() =~= xv.take(i as int));
                    assert(xv.take(i + 1).last() == json_view(*x));
                }
                match (field(x, "folder"), field(x, "files")) {
                    (Some(Json::String(folder)), Some(Json::Array(files))) => {
                        let folder_root = resolve_manifest_path(root, folder.as_str());
                        push_entries(&mut out, &folder_root, files);
                        proof {
                            assert(before + entries_at(folder_root@, strings_of(jsons_view(files@))) =~= head
                                + include_entries(root@, xv.take(i + 1)));
                        }
                    },
                    _ => {
                        proof {
                            assert(include_entries(root@, xv.take(i + 1)) =~= include_entries(root@, xv.take(i as int)));
                        }
                    },
                }
                i = i + 1;
            }
            proof {
                assert(xv.take(xs@.len() as int) =~= xv);
            }
        },
        _ => {
            proof {
                assert(head + Seq::<(Seq<char>, Seq<char>)>::empty() =~= head);
            }
        },
    }
    if out.len() == 0 {
        let mut m = String::new();
        push_str(&mut m, "metacat.json must contain files or include entries");
        return Err(m);
    }
    Ok(out)
}

} // verus!
