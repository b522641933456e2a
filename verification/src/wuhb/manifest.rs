//! The configuration of a bundle taken from the `wuhb` table of the crate's
//! manifest.
use vstd::prelude::*;
use super::{default_name, is_default_name, opt_view, WuhbConfig, WuhbConfigView};

verus! {

/// A value of the manifest's `wuhb` table: a string, or something else.
pub enum ManifestValue {
    Text(String),
    Other,
}

/// The manifest's `wuhb` table was refused: the entry at `key` is not a
/// string.
pub struct ManifestError {
    pub key: String,
}

/// A value as the string it holds, `None` where it is no string.
pub open spec fn value_view(v: ManifestValue) -> Option<Seq<char>> {
    match v {
        ManifestValue::Text(s) => Some(s@),
        ManifestValue::Other => None,
    }
}

/// The entries of a table: each key with the string its value holds, if any.
pub open spec fn table_view(t: Seq<(String, ManifestValue)>) -> Seq<(Seq<char>, Option<Seq<char>>)> {
    t.map_values(|e: (String, ManifestValue)| (e.0@, value_view(e.1)))
}

/// The value of the first entry at `key` from position `i` on.
pub open spec fn lookup_from(t: Seq<(Seq<char>, Option<Seq<char>>)>, key: Seq<char>, i: int) -> Option<Option<Seq<char>>>
    decreases t.len() - i,
{
    if i < 0 || i >= t.len() {
        None
    } else if t[i].0 == key {
        Some(t[i].1)
    } else {
        lookup_from(t, key, i + 1)
    }
}

/// The value of the entry at `key`, `None` where there is none.
pub open spec fn lookup(t: Seq<(Seq<char>, Option<Seq<char>>)>, key: Seq<char>) -> Option<Option<Seq<char>>> {
    lookup_from(t, key, 0)
}

/// A name after reading the table: a name other than the default stays;
/// the default gives way to the string at `key`, and stays where there is
/// no entry; an entry that is not a string is an error naming `key`.
pub open spec fn manifest_name(current: Seq<char>, t: Seq<(Seq<char>, Option<Seq<char>>)>, key: Seq<char>) -> Result<Seq<char>, Seq<char>> {
    if current != default_name() {
        Ok(current)
    } else {
        match lookup(t, key) {
            None => Ok(current),
            Some(Some(s)) => Ok(s),
            Some(None) => Err(key),
        }
    }
}

/// A path after reading the table: the string at `key`, none where there is
/// no entry, an error naming `key` where the entry is not a string.
pub open spec fn manifest_path(t: Seq<(Seq<char>, Option<Seq<char>>)>, key: Seq<char>) -> Result<Option<Seq<char>>, Seq<char>> {
    match lookup(t, key) {
        None => Ok(None),
        Some(Some(s)) => Ok(Some(s)),
        Some(None) => Err(key),
    }
}

/// The configuration after reading the table: the long and short names,
/// then the icon, the TV image, the gamepad image and the content path, in
/// this order; the first entry consulted that is not a string is the error.
pub open spec fn spec_apply_manifest(c: WuhbConfigView, t: Seq<(Seq<char>, Option<Seq<char>>)>) -> Result<WuhbConfigView, Seq<char>> {
    match manifest_name(c.long_name, t, "long-name"@) {
        Err(k) => Err(k),
        Ok(long_name) => match manifest_name(c.short_name, t, "short-name"@) {
            Err(k) => Err(k),
            Ok(short_name) => match manifest_path(t, "icon"@) {
                Err(k) => Err(k),
                Ok(icon) => match manifest_path(t, "tv-image"@) {
                    Err(k) => Err(k),
                    Ok(tv_image) => match manifest_path(t, "drc-image"@) {
                        Err(k) => Err(k),
                        Ok(drc_image) => match manifest_path(t, "content"@) {
                            Err(k) => Err(k),
                            Ok(content) => Ok(
                                WuhbConfigView { long_name, short_name, icon, tv_image, drc_image, content },
                            ),
                        },
                    },
                },
            },
        },
    }
}

/// The string at `key` in `table`: `None` where there is no entry, an error
/// where the entry is not a string.
fn entry_string(table: &Vec<(String, ManifestValue)>, key: &str) -> (r: Result<Option<String>, ManifestError>)
    ensures
        match lookup(table_view(table@), key@) {
            None => r == Ok::<Option<String>, ManifestError>(None),
            Some(Some(s)) => r is Ok && r->Ok_0 is Some && r->Ok_0->Some_0@ == s,
            Some(None) => r is Err && r->Err_0.key@ == key@,
        },
{
    let ghost t = table_view(table@);
    let wanted = key.to_owned();
    let mut i: usize = 0;
    while i < table.len()
        invariant
            i <= table@.len(),
            t == table_view(table@),
            wanted@ == key@,
            lookup_from(t, key@, i as int) == lookup(t, key@),
        decreases table@.len() - i,
    {
        assert(t[i as int] == (table@[i as int].0@, value_view(table@[i as int].1)));
        if table[i].0 == wanted {
            return match &table[i].1 {
                ManifestValue::Text(s) => Ok(Some(s.clone())),
                ManifestValue::Other => Err(ManifestError { key: key.to_owned() }),
            };
        }
        i = i + 1;
    }
    Ok(None)
}

/// A name after reading `table`.
fn name_from(current: String, table: &Vec<(String, ManifestValue)>, key: &str) -> (r: Result<String, ManifestError>)
    ensures
        match manifest_name(current@, table_view(table@), key@) {
            Ok(n) => r is Ok && r->Ok_0@ == n,
            Err(k) => r is Err && r->Err_0.key@ == k,
        },
{
    if is_default_name(current.as_str()) {
        match entry_string(table, key) {
            Ok(Some(s)) => Ok(s),
            Ok(None) => Ok(current),
            Err(e) => Err(e),
        }
    } else {
        Ok(current)
    }
}

/// A path after reading `table`.
fn path_from(table: &Vec<(String, ManifestValue)>, key: &str) -> (r: Result<Option<String>, ManifestError>)
    ensures
        match manifest_path(table_view(table@), key@) {
            Ok(p) => r is Ok && opt_view(r->Ok_0) == p,
            Err(k) => r is Err && r->Err_0.key@ == k,
        },
{
    entry_string(table, key)
}

/// The configuration after reading the manifest's `wuhb` table: a name that
/// is still the default, `Rust App`, is replaced by the table's string; the
/// four paths are always replaced, by none where the table has no entry;
/// and the first entry consulted that is not a string is refused.
pub fn apply_manifest(config: WuhbConfig, table: Vec<(String, ManifestValue)>) -> (r: Result<WuhbConfig, ManifestError>)
    ensures
        match spec_apply_manifest(config@, table_view(table@)) {
            Ok(v) => r is Ok && r->Ok_0@ == v,
            Err(k) => r is Err && r->Err_0.key@ == k,
        },
{
    let long_name = name_from(config.long_name, &table, "long-name")?;
    let short_name = name_from(config.short_name, &table, "short-name")?;
    let icon = path_from(&table, "icon")?;
    let tv_image = path_from(&table, "tv-image")?;
    let drc_image = path_from(&table, "drc-image")?;
    let content = path_from(&table, "content")?;
    Ok(WuhbConfig { long_name, short_name, icon, tv_image, drc_image, content })
}

} // verus!
