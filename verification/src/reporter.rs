//! Reports built from scan results: the table, CSV, the catalog document
//! and the diff against a catalog.
use vstd::prelude::*;

use crate::catalog::{
    catalog_items, dedup, item_key, item_keys, items_view, json_get, json_pretty_text, json_view,
    lemma_members_view, lemma_unregistered_exact, member_lookup, members_view, render_json_pretty,
    result_key, result_key_of, result_keys, unregistered_of, JsonModel, JsonValue,
};
use crate::pattern::{results_view, ScanResult, ScanResultModel};
use crate::text::{
    contains_string, decimal, decimal_string, pad_left, pad_right, permission_key, push_char,
    push_decimal, push_padded_left, push_padded_right, push_repeated, repeat_char, strings_view,
};

verus! {

/// One line of the table: five padded columns and the rule, as
/// `{:<10} {:<30} {:<12} {:<40} {:>6}  {}` followed by a newline.
pub open spec fn table_line(
    level: Seq<char>,
    resource: Seq<char>,
    action: Seq<char>,
    file: Seq<char>,
    line: Seq<char>,
    rule: Seq<char>,
) -> Seq<char> {
    pad_right(level, 10) + seq![' '] + pad_right(resource, 30) + seq![' '] + pad_right(action, 12)
        + seq![' '] + pad_right(file, 40) + seq![' '] + pad_left(line, 6) + seq![' ', ' '] + rule
        + seq!['\n']
}

/// The table's header line.
pub open spec fn table_header() -> Seq<char> {
    table_line("LEVEL"@, "RESOURCE"@, "ACTION"@, "FILE"@, "LINE"@, "RULE"@)
}

/// The table lines of the results, in order.
pub open spec fn table_rows(results: Seq<ScanResultModel>) -> Seq<char>
    decreases results.len(),
{
    if results.len() == 0 {
        seq![]
    } else {
        let r = results.last();
        table_rows(results.drop_last()) + table_line(
            r.level,
            r.resource,
            r.action,
            r.source_file,
            decimal(r.source_line as nat),
            r.rule_id,
        )
    }
}

/// The whole table report.
pub open spec fn table_report(results: Seq<ScanResultModel>) -> Seq<char> {
    if results.len() == 0 {
        "No permissions found.\n"@
    } else {
        table_header() + repeat_char('-', 120) + seq!['\n'] + table_rows(results) + seq!['\n']
            + decimal(results.len()) + " permissions found.\n"@
    }
}

/// One CSV line: the six fields joined by commas, then a newline.
pub open spec fn csv_line(r: ScanResultModel) -> Seq<char> {
    r.level + seq![','] + r.resource + seq![','] + r.action + seq![','] + r.source_file + seq![',']
        + decimal(r.source_line as nat) + seq![','] + r.rule_id + seq!['\n']
}

/// The CSV lines of the results, in order.
pub open spec fn csv_rows(results: Seq<ScanResultModel>) -> Seq<char>
    decreases results.len(),
{
    if results.len() == 0 {
        seq![]
    } else {
        csv_rows(results.drop_last()) + csv_line(results.last())
    }
}

/// The CSV header line.
pub open spec fn csv_header() -> Seq<char> {
    "level,resource,action,source_file,source_line,rule_id\n"@
}

/// A permission of the catalog document: level, resource and action.
pub struct CatalogPermission {
    pub level_key: String,
    pub resource_key: String,
    pub action_key: String,
}

impl View for CatalogPermission {
    type V = (Seq<char>, Seq<char>, Seq<char>);

    open spec fn view(&self) -> (Seq<char>, Seq<char>, Seq<char>) {
        (self.level_key@, self.resource_key@, self.action_key@)
    }
}

/// The key of a catalog permission.
pub open spec fn permission_key_of(p: (Seq<char>, Seq<char>, Seq<char>)) -> Seq<char> {
    permission_key(p.0, p.1, p.2)
}

/// The keys of a list of catalog permissions.
pub open spec fn permission_keys(perms: Seq<(Seq<char>, Seq<char>, Seq<char>)>) -> Seq<Seq<char>> {
    perms.map_values(|p: (Seq<char>, Seq<char>, Seq<char>)| permission_key_of(p))
}

/// The permissions of the results, one per key, in order of first occurrence.
pub open spec fn catalog_permissions_of(results: Seq<ScanResultModel>) -> Seq<(Seq<char>, Seq<char>, Seq<char>)>
    decreases results.len(),
{
    if results.len() == 0 {
        seq![]
    } else {
        let prev = catalog_permissions_of(results.drop_last());
        let r = results.last();
        if permission_keys(prev).contains(result_key_of(r)) {
            prev
        } else {
            prev.push((r.level, r.resource, r.action))
        }
    }
}

/// The views of a list of catalog permissions.
pub open spec fn permissions_view(v: Seq<CatalogPermission>) -> Seq<(Seq<char>, Seq<char>, Seq<char>)> {
    v.map_values(|p: CatalogPermission| p@)
}

/// The catalog entry of a permission: an object with the members
/// `level_key`, `resource_key` and `action_key`, in that order, holding its
/// three strings.
pub open spec fn permission_entry_model(p: (Seq<char>, Seq<char>, Seq<char>)) -> JsonModel {
    JsonModel::Object(
        seq![
            ("level_key"@, JsonModel::Text(p.0)),
            ("resource_key"@, JsonModel::Text(p.1)),
            ("action_key"@, JsonModel::Text(p.2)),
        ],
    )
}

/// The catalog document of a list of permissions: an object whose only
/// member `permissions` is the array of their entries, in order.
pub open spec fn catalog_model(perms: Seq<(Seq<char>, Seq<char>, Seq<char>)>) -> JsonModel {
    JsonModel::Object(
        seq![(
            "permissions"@,
            JsonModel::Array(perms.map_values(|p: (Seq<char>, Seq<char>, Seq<char>)| permission_entry_model(p))),
        )],
    )
}

/// One line of the diff: `+ key   file:line` for a permission in code but
/// not in the catalog.
pub open spec fn added_line(r: ScanResultModel) -> Seq<char> {
    seq!['+', ' '] + result_key_of(r) + seq![' ', ' ', ' '] + r.source_file + seq![':'] + decimal(
        r.source_line as nat,
    )
}

/// One line of the diff: `- key` for a catalog key no code uses.
pub open spec fn removed_line(key: Seq<char>) -> Seq<char> {
    seq!['-', ' '] + key
}

/// `line` in green (`green`) or red, where `color` asks for it.
pub open spec fn colored(line: Seq<char>, color: bool, green: bool) -> Seq<char> {
    if !color {
        line
    } else if green {
        "\x1b[32m"@ + line + "\x1b[0m"@
    } else {
        "\x1b[31m"@ + line + "\x1b[0m"@
    }
}

/// The added lines, each after a newline.
pub open spec fn added_lines(added: Seq<ScanResultModel>, color: bool) -> Seq<char>
    decreases added.len(),
{
    if added.len() == 0 {
        seq![]
    } else {
        added_lines(added.drop_last(), color) + seq!['\n'] + colored(added_line(added.last()), color, true)
    }
}

/// The removed lines, each after a newline.
pub open spec fn removed_lines(gone: Seq<Seq<char>>, color: bool) -> Seq<char>
    decreases gone.len(),
{
    if gone.len() == 0 {
        seq![]
    } else {
        removed_lines(gone.drop_last(), color) + seq!['\n'] + colored(removed_line(gone.last()), color, false)
    }
}

/// The diff report: the number of changes, then the added and the
/// removed permissions, one per line.
pub open spec fn diff_report(added: Seq<ScanResultModel>, gone: Seq<Seq<char>>, color: bool) -> Seq<char> {
    decimal(added.len() + gone.len()) + " permission change(s):"@ + added_lines(added, color)
        + removed_lines(gone, color)
}

/// Appends one table line.
fn push_table_line(s: &mut String, level: &str, resource: &str, action: &str, file: &str, line: &str, rule: &str)
    ensures
        final(s)@ == old(s)@ + table_line(level@, resource@, action@, file@, line@, rule@),
{
    push_padded_right(s, level, 10);
    push_char(s, ' ');
    push_padded_right(s, resource, 30);
    push_char(s, ' ');
    push_padded_right(s, action, 12);
    push_char(s, ' ');
    push_padded_right(s, file, 40);
    push_char(s, ' ');
    push_padded_left(s, line, 6);
    push_char(s, ' ');
    push_char(s, ' ');
    s.append(rule);
    push_char(s, '\n');
    assert(s@ =~= old(s)@ + table_line(level@, resource@, action@, file@, line@, rule@));
}

/// The table report: a header, a rule of dashes, one line per result and
/// the number of results; `No permissions found.` where there is none.
pub fn report_table(results: &[ScanResult]) -> (r: String)
    ensures
        r@ == table_report(results_view(results@)),
{
    if results.len() == 0 {
        return String::from_str("No permissions found.\n");
    }
    let mut out = String::new();
    push_table_line(&mut out, "LEVEL", "RESOURCE", "ACTION", "FILE", "LINE", "RULE");
    push_repeated(&mut out, '-', 120);
    push_char(&mut out, '\n');
    let ghost head = out@;
    let mut i: usize = 0;
    while i < results.len()
        invariant
            i <= results@.len(),
            out@ == head + table_rows(results_view(results@).take(i as int)),
        decreases results@.len() - i,
    {
        let r = &results[i];
        let line = decimal_string(r.source_line);
        push_table_line(
            &mut out,
            r.level.as_str(),
            r.resource.as_str(),
            r.action.as_str(),
            r.source_file.as_str(),
            line.as_str(),
            r.rule_id.as_str(),
        );
        proof {
            let rv = results_view(results@);
            assert(rv.take(i + 1).drop_last() =~= rv.take(i as int));
            assert(rv.take(i + 1).last() == results@[i as int]@);
            assert(out@ =~= head + table_rows(rv.take(i + 1)));
        }
        i = i + 1;
    }
    assert(results_view(results@).take(results@.len() as int) =~= results_view(results@));
    push_char(&mut out, '\n');
    push_decimal(&mut out, results.len());
    out.append(" permissions found.\n");
    assert(out@ =~= table_report(results_view(results@)));
    out
}

/// The CSV report: a header line, then one line per result.
pub fn report_csv(results: &[ScanResult]) -> (r: String)
    ensures
        r@ == csv_header() + csv_rows(results_view(results@)),
{
    let mut out = String::from_str("level,resource,action,source_file,source_line,rule_id\n");
    let mut i: usize = 0;
    while i < results.len()
        invariant
            i <= results@.len(),
            out@ == csv_header() + csv_rows(results_view(results@).take(i as int)),
        decreases results@.len() - i,
    {
        let r = &results[i];
        let ghost before = out@;
        out.append(r.level.as_str());
        push_char(&mut out, ',');
        out.append(r.resource.as_str());
        push_char(&mut out, ',');
        out.append(r.action.as_str());
        push_char(&mut out, ',');
        out.append(r.source_file.as_str());
        push_char(&mut out, ',');
        push_decimal(&mut out, r.source_line);
        push_char(&mut out, ',');
        out.append(r.rule_id.as_str());
        push_char(&mut out, '\n');
        proof {
            let rv = results_view(results@);
            assert(rv.take(i + 1).drop_last() =~= rv.take(i as int));
            assert(rv.take(i + 1).last() == results@[i as int]@);
            assert(out@ =~= before + csv_line(results@[i as int]@));
            assert(out@ =~= csv_header() + csv_rows(rv.take(i + 1)));
        }
        i = i + 1;
    }
    assert(results_view(results@).take(results@.len() as int) =~= results_view(results@));
    out
}

/// The permissions of the results, one per `level:resource:action` key,
/// in the order in which each key first occurs.
pub fn catalog_permissions(results: &[ScanResult]) -> (r: Vec<CatalogPermission>)
    ensures
        permissions_view(r@) == catalog_permissions_of(results_view(results@)),
{
    let mut out: Vec<CatalogPermission> = Vec::new();
    let mut seen: Vec<String> = Vec::new();
    let mut i: usize = 0;
    while i < results.len()
        invariant
            i <= results@.len(),
            permissions_view(out@) == catalog_permissions_of(results_view(results@).take(i as int)),
            strings_view(seen@) == permission_keys(permissions_view(out@)),
        decreases results@.len() - i,
    {
        let r = &results[i];
        let key = result_key(r);
        let ghost prev_out = out@;
        let ghost prev_seen = seen@;
        if !contains_string(&seen, &key) {
            out.push(
                CatalogPermission {
                    level_key: r.level.clone(),
                    resource_key: r.resource.clone(),
                    action_key: r.action.clone(),
                },
            );
            seen.push(key);
            proof {
                assert(permissions_view(out@) =~= permissions_view(prev_out).push(
                    (r.level@, r.resource@, r.action@),
                ));
                assert(strings_view(seen@) =~= strings_view(prev_seen).push(result_key_of(r@)));
                assert(strings_view(seen@) =~= permission_keys(permissions_view(out@)));
            }
        }
        proof {
            let rv = results_view(results@);
            assert(rv.take(i + 1).drop_last() =~= rv.take(i as int));
            assert(rv.take(i + 1).last() == results@[i as int]@);
        }
        i = i + 1;
    }
    assert(results_view(results@).take(results@.len() as int) =~= results_view(results@));
    out
}

/// The catalog entry of one permission.
fn permission_entry(p: &CatalogPermission) -> (r: JsonValue)
    ensures
        json_view(r) == permission_entry_model(p@),
{
    let mut members: Vec<(String, JsonValue)> = Vec::new();
    members.push((String::from_str("level_key"), JsonValue::Text(p.level_key.clone())));
    members.push((String::from_str("resource_key"), JsonValue::Text(p.resource_key.clone())));
    members.push((String::from_str("action_key"), JsonValue::Text(p.action_key.clone())));
    proof {
        lemma_members_view(members@);
        assert(members_view(members@) =~= permission_entry_model(p@)->Object_0);
    }
    JsonValue::Object(members)
}

/// The catalog document of the results: `{"permissions": [...]}` with one
/// entry per distinct key (see [`catalog_permissions`]).
pub fn catalog_document(results: &[ScanResult]) -> (r: JsonValue)
    ensures
        json_view(r) == catalog_model(catalog_permissions_of(results_view(results@))),
{
    let perms = catalog_permissions(results);
    let ghost pv = permissions_view(perms@);
    let mut items: Vec<JsonValue> = Vec::new();
    let mut i: usize = 0;
    while i < perms.len()
        invariant
            i <= perms@.len(),
            pv == permissions_view(perms@),
            items_view(items@) == pv.take(i as int).map_values(
                |p: (Seq<char>, Seq<char>, Seq<char>)| permission_entry_model(p),
            ),
        decreases perms@.len() - i,
    {
        let ghost prev = items@;
        let e = permission_entry(&perms[i]);
        items.push(e);
        proof {
            assert(items@.drop_last() =~= prev);
            assert(pv[i as int] == perms@[i as int]@);
            assert(pv.take(i + 1).map_values(|p: (Seq<char>, Seq<char>, Seq<char>)| permission_entry_model(p))
                =~= pv.take(i as int).map_values(|p: (Seq<char>, Seq<char>, Seq<char>)| permission_entry_model(p)).push(
                permission_entry_model(pv[i as int]),
            ));
        }
        i = i + 1;
    }
    assert(pv.take(perms@.len() as int) =~= pv);
    let mut members: Vec<(String, JsonValue)> = Vec::new();
    members.push((String::from_str("permissions"), JsonValue::Array(items)));
    proof {
        lemma_members_view(members@);
        assert(members_view(members@) =~= catalog_model(pv)->Object_0);
    }
    JsonValue::Object(members)
}

/// The catalog document of the results as pretty-printed JSON text
/// (`{}` where rendering fails).
pub fn report_catalog_json(results: &[ScanResult]) -> (r: String)
    ensures
        r@ == match json_pretty_text(catalog_model(catalog_permissions_of(results_view(results@)))) {
            Some(t) => t,
            None => "{}"@,
        },
{
    let doc = catalog_document(results);
    match render_json_pretty(&doc) {
        Some(t) => t,
        None => String::from_str("{}"),
    }
}

/// Appends `line`, coloured where `color` asks for it.
fn push_colored(s: &mut String, line: &str, color: bool, green: bool)
    ensures
        final(s)@ == old(s)@ + colored(line@, color, green),
{
    if color {
        if green {
            s.append("\x1b[32m");
        } else {
            s.append("\x1b[31m");
        }
    }
    s.append(line);
    if color {
        s.append("\x1b[0m");
    }
    assert(s@ =~= old(s)@ + colored(line@, color, green));
}

/// The diff report: `N permission change(s):`, then `+ key   file:line`
/// for each permission in code but not in the catalog and `- key` for each
/// catalog key no code uses, one per line.
pub fn report_diff(added: &[ScanResult], gone: &[String], color: bool) -> (r: String)
    requires
        added@.len() + gone@.len() <= usize::MAX,
    ensures
        r@ == diff_report(results_view(added@), strings_view(gone@), color),
{
    let mut out = String::new();
    push_decimal(&mut out, added.len() + gone.len());
    out.append(" permission change(s):");
    let ghost head = out@;
    let mut i: usize = 0;
    while i < added.len()
        invariant
            i <= added@.len(),
            out@ == head + added_lines(results_view(added@).take(i as int), color),
        decreases added@.len() - i,
    {
        let r = &added[i];
        let mut line = String::from_str("+ ");
        line.append(result_key(r).as_str());
        line.append("   ");
        line.append(r.source_file.as_str());
        push_char(&mut line, ':');
        push_decimal(&mut line, r.source_line);
        proof {
            reveal_strlit("+ ");
            reveal_strlit("   ");
            assert(line@ =~= added_line(r@));
        }
        let ghost before = out@;
        push_char(&mut out, '\n');
        push_colored(&mut out, line.as_str(), color, true);
        proof {
            let rv = results_view(added@);
            assert(rv.take(i + 1).drop_last() =~= rv.take(i as int));
            assert(rv.take(i + 1).last() == added@[i as int]@);
            assert(out@ =~= head + added_lines(rv.take(i + 1), color));
        }
        i = i + 1;
    }
    assert(results_view(added@).take(added@.len() as int) =~= results_view(added@));
    let ghost mid = out@;
    let mut j: usize = 0;
    while j < gone.len()
        invariant
            j <= gone@.len(),
            out@ == mid + removed_lines(strings_view(gone@).take(j as int), color),
        decreases gone@.len() - j,
    {
        let mut line = String::from_str("- ");
        line.append(gone[j].as_str());
        proof {
            reveal_strlit("- ");
            assert(line@ =~= removed_line(gone@[j as int]@));
        }
        push_char(&mut out, '\n');
        push_colored(&mut out, line.as_str(), color, false);
        proof {
            let gv = strings_view(gone@);
            assert(gv.take(j + 1).drop_last() =~= gv.take(j as int));
            assert(gv.take(j + 1).last() == gone@[j as int]@);
            assert(out@ =~= mid + removed_lines(gv.take(j + 1), color));
        }
        j = j + 1;
    }
    assert(strings_view(gone@).take(gone@.len() as int) =~= strings_view(gone@));
    assert(out@ =~= diff_report(results_view(added@), strings_view(gone@), color));
    out
}

/// The keys of the catalog permissions of some results are distinct, and
/// each result's key is among them.
pub proof fn lemma_catalog_permissions_keys(results: Seq<ScanResultModel>)
    ensures
        permission_keys(catalog_permissions_of(results)).no_duplicates(),
        forall|i: int|
            0 <= i < results.len() ==> permission_keys(catalog_permissions_of(results)).contains(
                result_key_of(#[trigger] results[i]),
            ),
    decreases results.len(),
{
    if results.len() > 0 {
        let prev_results = results.drop_last();
        lemma_catalog_permissions_keys(prev_results);
        let prev = catalog_permissions_of(prev_results);
        let r = results.last();
        let pk = permission_keys(prev);
        let k = result_key_of(r);
        let all = permission_keys(catalog_permissions_of(results));
        if !pk.contains(k) {
            assert(all =~= pk.push(k));
            assert forall|i: int, j: int| 0 <= i < j < all.len() implies all[i] != all[j] by {
                if j == pk.len() {
                    assert(pk.contains(pk[i]));
                }
            }
        } else {
            assert(all == pk);
        }
        assert forall|i: int| 0 <= i < results.len() implies all.contains(result_key_of(#[trigger] results[i])) by {
            if i < prev_results.len() {
                assert(prev_results[i] == results[i]);
                let j = choose|j: int| 0 <= j < pk.len() && pk[j] == result_key_of(prev_results[i]);
                if !pk.contains(k) {
                    assert(all[j] == pk[j]);
                }
            } else {
                assert(results[i] == r);
                if !pk.contains(k) {
                    assert(all[all.len() - 1] == k);
                }
            }
        }
    }
}

/// A catalog entry yields the key of its permission.
proof fn lemma_entry_key(p: (Seq<char>, Seq<char>, Seq<char>))
    ensures
        item_key(permission_entry_model(p)) == Some(permission_key_of(p)),
{
    reveal_strlit("key");
    reveal_strlit("level_key");
    reveal_strlit("resource_key");
    reveal_strlit("action_key");
    let item = permission_entry_model(p);
    let e = item->Object_0;
    let e1 = e.drop_first();
    let e2 = e1.drop_first();
    let e3 = e2.drop_first();
    assert(e1[0] == e[1]);
    assert(e2[0] == e[2]);
    assert(e3.len() == 0);
    assert("key"@.len() == 3);
    assert("level_key"@.len() == 9);
    assert("resource_key"@.len() == 12);
    assert("key"@ != "level_key"@);
    assert("key"@ != "resource_key"@);
    assert("key"@ != "action_key"@);
    assert("level_key"@ != "resource_key"@);
    assert("level_key"@ != "action_key"@);
    assert("resource_key"@ != "action_key"@);
    assert(member_lookup(e3, "key"@) is None);
    assert(member_lookup(e2, "key"@) == member_lookup(e3, "key"@));
    assert(member_lookup(e1, "key"@) == member_lookup(e2, "key"@));
    assert(member_lookup(e, "key"@) == member_lookup(e1, "key"@));
    assert(member_lookup(e1, "resource_key"@) == Some(e1[0].1));
    assert(member_lookup(e, "resource_key"@) == member_lookup(e1, "resource_key"@));
    assert(member_lookup(e2, "action_key"@) == Some(e2[0].1));
    assert(member_lookup(e1, "action_key"@) == member_lookup(e2, "action_key"@));
    assert(member_lookup(e, "action_key"@) == member_lookup(e1, "action_key"@));
    assert(member_lookup(e, "level_key"@) == Some(e[0].1));
    assert(json_get(item, "key"@) is None);
}

/// The keys of the entries of a list of permissions are their keys.
proof fn lemma_entries_keys(perms: Seq<(Seq<char>, Seq<char>, Seq<char>)>)
    ensures
        item_keys(perms.map_values(|p: (Seq<char>, Seq<char>, Seq<char>)| permission_entry_model(p)))
            == permission_keys(perms),
    decreases perms.len(),
{
    if perms.len() > 0 {
        let pp = perms.drop_last();
        lemma_entries_keys(pp);
        let items = perms.map_values(|p: (Seq<char>, Seq<char>, Seq<char>)| permission_entry_model(p));
        assert(items.drop_last() =~= pp.map_values(|p: (Seq<char>, Seq<char>, Seq<char>)| permission_entry_model(p)));
        lemma_entry_key(perms.last());
        assert(items.last() == permission_entry_model(perms.last()));
        assert(permission_keys(perms) =~= permission_keys(pp).push(permission_key_of(perms.last())));
    }
}

/// Dropping repeats from a sequence without repeats leaves it unchanged.
proof fn lemma_dedup_distinct(keys: Seq<Seq<char>>)
    requires
        keys.no_duplicates(),
    ensures
        dedup(keys) == keys,
    decreases keys.len(),
{
    if keys.len() > 0 {
        let prev = keys.drop_last();
        assert(prev.no_duplicates()) by {
            assert forall|i: int, j: int| 0 <= i < j < prev.len() implies prev[i] != prev[j] by {
                assert(prev[i] == keys[i]);
                assert(prev[j] == keys[j]);
            }
        }
        lemma_dedup_distinct(prev);
        assert(!prev.contains(keys.last())) by {
            if prev.contains(keys.last()) {
                let j = choose|j: int| 0 <= j < prev.len() && prev[j] == keys.last();
                assert(keys[j] == keys[keys.len() - 1]);
            }
        }
        assert(prev.push(keys.last()) =~= keys);
    }
}

/// Reading back the catalog document of some scan results registers
/// exactly their distinct keys, in order of first occurrence, so that
/// none of those results is unregistered against it: a baseline generated
/// from a scan passes `lint` for that same scan.
pub proof fn lemma_catalog_document_round_trip(results: Seq<ScanResultModel>)
    ensures
        catalog_items(catalog_model(catalog_permissions_of(results))) is Some,
        dedup(item_keys(catalog_items(catalog_model(catalog_permissions_of(results)))->0)) == permission_keys(
            catalog_permissions_of(results),
        ),
        unregistered_of(
            results,
            dedup(item_keys(catalog_items(catalog_model(catalog_permissions_of(results)))->0)),
        ).len() == 0,
{
    reveal_strlit("permissions");
    let perms = catalog_permissions_of(results);
    let entries = catalog_model(perms)->Object_0;
    assert(member_lookup(entries, "permissions"@) == Some(entries[0].1));
    lemma_entries_keys(perms);
    lemma_catalog_permissions_keys(results);
    lemma_dedup_distinct(permission_keys(perms));
    lemma_unregistered_exact(results, permission_keys(perms));
}

/// Results whose keys all occur earlier change nothing in the catalog
/// permissions.
pub proof fn lemma_catalog_permissions_ignore_repeats(results: Seq<ScanResultModel>, more: Seq<ScanResultModel>)
    requires
        forall|i: int|
            0 <= i < more.len() ==> result_keys(results).contains(result_key_of(#[trigger] more[i])),
    ensures
        catalog_permissions_of(results + more) == catalog_permissions_of(results),
    decreases more.len(),
{
    if more.len() > 0 {
        let m = more.drop_last();
        assert forall|i: int| 0 <= i < m.len() implies result_keys(results).contains(
            result_key_of(#[trigger] m[i]),
        ) by {
            assert(m[i] == more[i]);
        }
        lemma_catalog_permissions_ignore_repeats(results, m);
        assert((results + more).drop_last() =~= results + m);
        assert((results + more).last() == more[more.len() - 1]);
        let k = result_key_of(more[more.len() - 1]);
        assert(result_keys(results).contains(k));
        let j = choose|j: int| 0 <= j < result_keys(results).len() && result_keys(results)[j] == k;
        lemma_catalog_permissions_keys(results);
        assert(result_key_of(results[j]) == k);
    } else {
        assert(results + more =~= results);
    }
}

/// Scanning the same results twice gives the same catalog permissions, so
/// the same catalog document and the same catalog text.
pub proof fn lemma_catalog_permissions_twice(results: Seq<ScanResultModel>)
    ensures
        catalog_permissions_of(results + results) == catalog_permissions_of(results),
        json_pretty_text(catalog_model(catalog_permissions_of(results + results))) == json_pretty_text(
            catalog_model(catalog_permissions_of(results)),
        ),
{
    assert forall|i: int| 0 <= i < results.len() implies result_keys(results).contains(
        result_key_of(#[trigger] results[i]),
    ) by {
        assert(result_keys(results)[i] == result_key_of(results[i]));
    }
    lemma_catalog_permissions_ignore_repeats(results, results);
}


/// The table has one line per result, in order, whether or not keys
/// repeat: the lines of two lists of results, one after the other, are the
/// lines of the first followed by those of the second.
pub proof fn lemma_table_rows_concat(a: Seq<ScanResultModel>, b: Seq<ScanResultModel>)
    ensures
        table_rows(a + b) == table_rows(a) + table_rows(b),
    decreases b.len(),
{
    if b.len() == 0 {
        assert(a + b =~= a);
        assert(table_rows(a) + table_rows(b) =~= table_rows(a));
    } else {
        lemma_table_rows_concat(a, b.drop_last());
        assert((a + b).drop_last() =~= a + b.drop_last());
        assert((a + b).last() == b.last());
        let r = b.last();
        let line = table_line(r.level, r.resource, r.action, r.source_file, decimal(r.source_line as nat), r.rule_id);
        assert(table_rows(a) + (table_rows(b.drop_last()) + line) =~= (table_rows(a) + table_rows(b.drop_last()))
            + line);
    }
}

/// The table line of one result shows its level, resource, action, file,
/// line number and rule.
pub proof fn lemma_table_rows_single(r: ScanResultModel)
    ensures
        table_rows(seq![r]) == table_line(
            r.level,
            r.resource,
            r.action,
            r.source_file,
            decimal(r.source_line as nat),
            r.rule_id,
        ),
{
    assert(seq![r].drop_last() =~= Seq::<ScanResultModel>::empty());
    assert(table_rows(Seq::<ScanResultModel>::empty()) == Seq::<char>::empty());
    assert(Seq::<char>::empty() + table_line(
        r.level,
        r.resource,
        r.action,
        r.source_file,
        decimal(r.source_line as nat),
        r.rule_id,
    ) =~= table_line(r.level, r.resource, r.action, r.source_file, decimal(r.source_line as nat), r.rule_id));
}

/// A table report of some results is the header, a rule of dashes, the
/// lines of the results, a blank line and the count of results; without
/// results it says that none were found.
pub proof fn lemma_table_report_layout(results: Seq<ScanResultModel>)
    ensures
        results.len() == 0 ==> table_report(results) == "No permissions found.\n"@,
        results.len() > 0 ==> table_report(results) == table_header() + repeat_char('-', 120) + seq!['\n']
            + table_rows(results) + seq!['\n'] + decimal(results.len()) + " permissions found.\n"@,
{
}

/// The CSV has one line per result after the header, in order, whether or
/// not keys repeat: the lines of two lists of results, one after the other,
/// are the lines of the first followed by those of the second.
pub proof fn lemma_csv_rows_concat(a: Seq<ScanResultModel>, b: Seq<ScanResultModel>)
    ensures
        csv_rows(a + b) == csv_rows(a) + csv_rows(b),
    decreases b.len(),
{
    if b.len() == 0 {
        assert(a + b =~= a);
        assert(csv_rows(a) + csv_rows(b) =~= csv_rows(a));
    } else {
        lemma_csv_rows_concat(a, b.drop_last());
        assert((a + b).drop_last() =~= a + b.drop_last());
        assert((a + b).last() == b.last());
        assert(csv_rows(a) + (csv_rows(b.drop_last()) + csv_line(b.last())) =~= (csv_rows(a) + csv_rows(
            b.drop_last(),
        )) + csv_line(b.last()));
    }
}

/// The CSV line of one result is its six fields joined by commas.
pub proof fn lemma_csv_rows_single(r: ScanResultModel)
    ensures
        csv_rows(seq![r]) == r.level + seq![','] + r.resource + seq![','] + r.action + seq![','] + r.source_file
            + seq![','] + decimal(r.source_line as nat) + seq![','] + r.rule_id + seq!['\n'],
{
    assert(seq![r].drop_last() =~= Seq::<ScanResultModel>::empty());
    assert(csv_rows(Seq::<ScanResultModel>::empty()) == Seq::<char>::empty());
    assert(Seq::<char>::empty() + csv_line(r) =~= csv_line(r));
}

} // verus!
