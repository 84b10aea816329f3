//! The report of one run: the JSON object of file counts, the figures derived
//! from it and from the last entry of the log, and the six rows of the report.

use vstd::prelude::*;
use serde_json::Value;
use crate::error::Failure;
use crate::json::{json_integers, parsed_json_integers, parse_json, json_member, json_as_i64, json_to_text};
use crate::text::{
    integer_text, integer_to_text, parsed_i64, parse_i64, string_views, join_spec, split_spec,
    lemma_split_len,
};

verus! {

/// The pieces of `parts`, one after the other.
pub open spec fn concat(parts: Seq<Seq<char>>) -> Seq<char>
    decreases parts.len(),
{
    if parts.len() == 0 {
        Seq::empty()
    } else {
        concat(parts.drop_last()) + parts.last()
    }
}

proof fn lemma_concat_push(parts: Seq<Seq<char>>, i: int)
    requires
        0 <= i < parts.len(),
    ensures
        concat(parts.take(i + 1)) == concat(parts.take(i)) + parts[i],
{
    assert(parts.take(i + 1).drop_last() =~= parts.take(i));
}

/// A language whose files are counted: its name for `rg` and the file
/// extensions that belong to it.
pub struct Language {
    pub name: String,
    pub extensions: String,
}

/// The languages that the tool counts, in order: TypeScript, then JavaScript.
pub open spec fn language_table() -> Seq<(Seq<char>, Seq<char>)> {
    seq![("ts"@, "ts,tsx"@), ("js"@, "js,jsx"@)]
}

/// See [`language_table`].
pub fn languages() -> (r: Vec<Language>)
    ensures
        r@.len() == language_table().len(),
        forall|i: int|
            0 <= i < r@.len() ==> (#[trigger] r@[i]).name@ == language_table()[i].0 && r@[i].extensions@
                == language_table()[i].1,
{
    let mut r: Vec<Language> = Vec::new();
    r.push(Language { name: "ts".to_owned(), extensions: "ts,tsx".to_owned() });
    r.push(Language { name: "js".to_owned(), extensions: "js,jsx".to_owned() });
    r
}

/// The member `"folder":count` of a language's object, closed by `}` after
/// the last folder and followed by `,` otherwise.
pub open spec fn folder_entry(folder: Seq<char>, count: Seq<char>, last: bool) -> Seq<char> {
    "\""@ + folder + "\":"@ + count + (if last {
        "}"@
    } else {
        ","@
    })
}

/// The member `"name":{...}` of the counts object for one language, followed
/// by `,` unless it is the last language.
pub open spec fn language_entry(
    name: Seq<char>,
    folders: Seq<Seq<char>>,
    counts: Seq<Seq<char>>,
    last: bool,
) -> Seq<char> {
    "\""@ + name + "\":{"@ + concat(
        Seq::new(
            folders.len(),
            |j: int| folder_entry(folders[j], counts[j], j == folders.len() - 1),
        ),
    ) + (if last {
        Seq::empty()
    } else {
        ","@
    })
}

/// The JSON text that holds the file count `counts[i][j]` of language
/// `names[i]` in folder `folders[j]`, each count written as it was printed.
pub open spec fn counts_json_text(
    names: Seq<Seq<char>>,
    folders: Seq<Seq<char>>,
    counts: Seq<Seq<Seq<char>>>,
) -> Seq<char> {
    "{"@ + concat(
        Seq::new(
            names.len(),
            |i: int| language_entry(names[i], folders, counts[i], i == names.len() - 1),
        ),
    ) + "}"@
}

/// The views of a vector of vectors of strings.
pub open spec fn string_table_views(v: Seq<Vec<String>>) -> Seq<Seq<Seq<char>>> {
    Seq::new(v.len(), |i: int| string_views(v[i]@))
}

fn language_json(name: &str, folders: &Vec<String>, counts: &Vec<String>, last: bool) -> (r: String)
    requires
        counts@.len() == folders@.len(),
    ensures
        r@ == language_entry(name@, string_views(folders@), string_views(counts@), last),
{
    let ghost fs = string_views(folders@);
    let ghost cs = string_views(counts@);
    let ghost parts = Seq::new(
        fs.len(),
        |j: int| folder_entry(fs[j], cs[j], j == fs.len() - 1),
    );
    let mut out = String::new();
    out.append("\"");
    out.append(name);
    out.append("\":{");
    let ghost head = out@;
    assert(parts.take(0) =~= Seq::<Seq<char>>::empty());
    let n = folders.len();
    let mut j: usize = 0;
    while j < n
        invariant
            n == folders@.len(),
            counts@.len() == n,
            fs == string_views(folders@),
            cs == string_views(counts@),
            parts == Seq::new(fs.len(), |j: int| folder_entry(fs[j], cs[j], j == fs.len() - 1)),
            0 <= j <= n,
            out@ == head + concat(parts.take(j as int)),
        decreases n - j,
    {
        let ghost before = out@;
        out.append("\"");
        out.append(folders[j].as_str());
        out.append("\":");
        out.append(counts[j].as_str());
        if j == n - 1 {
            out.append("}");
        } else {
            out.append(",");
        }
        proof {
            lemma_concat_push(parts, j as int);
            assert(out@ =~= before + parts[j as int]);
        }
        j = j + 1;
    }
    if !last {
        out.append(",");
    }
    assert(parts.take(n as int) =~= parts);
    assert(out@ =~= language_entry(name@, fs, cs, last));
    out
}

/// See [`counts_json_text`].
pub fn counts_json(names: &Vec<String>, folders: &Vec<String>, counts: &Vec<Vec<String>>) -> (r: String)
    requires
        counts@.len() == names@.len(),
        forall|i: int| 0 <= i < counts@.len() ==> (#[trigger] counts@[i])@.len() == folders@.len(),
    ensures
        r@ == counts_json_text(
            string_views(names@),
            string_views(folders@),
            string_table_views(counts@),
        ),
{
    let ghost ns = string_views(names@);
    let ghost fs = string_views(folders@);
    let ghost cs = string_table_views(counts@);
    let ghost parts = Seq::new(
        ns.len(),
        |i: int| language_entry(ns[i], fs, cs[i], i == ns.len() - 1),
    );
    let mut out = String::new();
    out.append("{");
    let ghost head = out@;
    assert(parts.take(0) =~= Seq::<Seq<char>>::empty());
    let n = names.len();
    let mut i: usize = 0;
    while i < n
        invariant
            n == names@.len(),
            counts@.len() == n,
            forall|i: int| 0 <= i < counts@.len() ==> (#[trigger] counts@[i])@.len() == folders@.len(),
            ns == string_views(names@),
            fs == string_views(folders@),
            cs == string_table_views(counts@),
            parts == Seq::new(ns.len(), |i: int| language_entry(ns[i], fs, cs[i], i == ns.len() - 1)),
            0 <= i <= n,
            out@ == head + concat(parts.take(i as int)),
        decreases n - i,
    {
        let ghost before = out@;
        let entry = language_json(names[i].as_str(), folders, &counts[i], i == n - 1);
        out.append(entry.as_str());
        proof {
            lemma_concat_push(parts, i as int);
            assert(out@ =~= before + parts[i as int]);
        }
        i = i + 1;
    }
    out.append("}");
    assert(parts.take(n as int) =~= parts);
    assert(out@ =~= counts_json_text(ns, fs, cs));
    out
}

/// The count of language `name` in `folder` as the tool reads it from the
/// parsed JSON: what `as_i64` gives for the value at `[name, folder]`, and 0
/// where there is no such value.
pub open spec fn count_at(
    integers: Map<Seq<Seq<char>>, Option<i64>>,
    name: Seq<char>,
    folder: Seq<char>,
) -> Option<i64> {
    if integers.contains_key(seq![name, folder]) {
        integers[seq![name, folder]]
    } else {
        Some(0)
    }
}

/// A file count read back from the JSON object, with the text that stands for
/// it in the report.
pub struct Count {
    pub value: i64,
    pub text: String,
}

/// What the tool reads for language `name` in `folder` from a JSON value whose
/// contents are `integers`: `None` where the value there is no `i64`.
pub open spec fn count_matches(c: Option<Count>, integers: Map<Seq<Seq<char>>, Option<i64>>, name: Seq<char>, folder: Seq<char>) -> bool {
    match count_at(integers, name, folder) {
        Some(n) => c matches Some(k) && k.value == n && k.text@ == integer_text(n as int),
        None => c is None,
    }
}

fn read_count(root: &Value, name: &str, folder: &str) -> (r: Option<Count>)
    ensures
        count_matches(r, json_integers(*root), name@, folder@),
{
    let ghost all = json_integers(*root);
    let ghost path = seq![name@, folder@];
    match json_member(root, name) {
        None => {
            assert(seq![name@] + seq![folder@] =~= path);
            Some(Count { value: 0, text: integer_to_text(0) })
        },
        Some(lang) => {
            assert(seq![name@] + seq![folder@] =~= path);
            match json_member(lang, folder) {
                None => Some(Count { value: 0, text: integer_to_text(0) }),
                Some(cell) => {
                    assert(seq![folder@] + Seq::<Seq<char>>::empty() =~= seq![folder@]);
                    assert(json_integers(*lang).contains_key(seq![folder@]));
                    let v = json_as_i64(cell);
                    match v {
                        None => None,
                        Some(n) => Some(Count { value: n, text: json_to_text(cell) }),
                    }
                },
            }
        },
    }
}

/// The file counts read from the JSON text `text`, indexed by language, then
/// by folder; `Err(InvalidCountsJson)` where the text does not parse.
pub fn read_counts(text: &str, names: &Vec<String>, folders: &Vec<String>) -> (r: Result<
    Vec<Vec<Option<Count>>>,
    Failure,
>)
    ensures
        r is Err <==> parsed_json_integers(text@) is None,
        r matches Err(e) ==> e == Failure::InvalidCountsJson,
        r matches Ok(t) ==> t@.len() == names@.len() && (forall|l: int|
            0 <= l < t@.len() ==> (#[trigger] t@[l])@.len() == folders@.len() && (forall|f: int|
                0 <= f < folders@.len() ==> count_matches(
                    #[trigger] t@[l]@[f],
                    parsed_json_integers(text@)->0,
                    names@[l]@,
                    folders@[f]@,
                ))),
{
    let root = match parse_json(text) {
        Some(v) => v,
        None => return Err(Failure::InvalidCountsJson),
    };
    let ghost all = json_integers(root);
    let mut table: Vec<Vec<Option<Count>>> = Vec::new();
    let nl = names.len();
    let nf = folders.len();
    let mut l: usize = 0;
    while l < nl
        invariant
            nl == names@.len(),
            nf == folders@.len(),
            all == json_integers(root),
            all == parsed_json_integers(text@)->0,
            0 <= l <= nl,
            table@.len() == l,
            forall|k: int|
                0 <= k < l ==> (#[trigger] table@[k])@.len() == nf && (forall|f: int|
                    0 <= f < nf ==> count_matches(
                        #[trigger] table@[k]@[f],
                        all,
                        names@[k]@,
                        folders@[f]@,
                    )),
        decreases nl - l,
    {
        let mut row: Vec<Option<Count>> = Vec::new();
        let mut f: usize = 0;
        while f < nf
            invariant
                nl == names@.len(),
                nf == folders@.len(),
                all == json_integers(root),
                0 <= l < nl,
                0 <= f <= nf,
                row@.len() == f,
                forall|g: int|
                    0 <= g < f ==> count_matches(#[trigger] row@[g], all, names@[l as int]@, folders@[g]@),
            decreases nf - f,
        {
            let c = read_count(&root, names[l].as_str(), folders[f].as_str());
            row.push(c);
            f = f + 1;
        }
        table.push(row);
        l = l + 1;
    }
    Ok(table)
}

/// The JSON member `"key":value`.
pub open spec fn member_text(key: Seq<char>, value: Seq<char>) -> Seq<char> {
    "\""@ + key + "\":"@ + value
}

/// The JSON object of `members`: braces around the members, separated by commas.
pub open spec fn object_text(members: Seq<Seq<char>>) -> Seq<char> {
    "{"@ + join_spec(members, ',') + "}"@
}

proof fn lemma_join_push(xs: Seq<Seq<char>>, sep: char)
    requires
        xs.len() >= 2,
    ensures
        join_spec(xs, sep) == join_spec(xs.drop_last(), sep) + seq![sep] + xs.last(),
    decreases xs.len(),
{
    let rest = xs.drop_first();
    let init = xs.drop_last();
    assert(join_spec(xs, sep) == xs[0] + seq![sep] + join_spec(rest, sep));
    if xs.len() > 2 {
        lemma_join_push(rest, sep);
        assert(rest.drop_last() =~= init.drop_first());
        assert(join_spec(init, sep) == init[0] + seq![sep] + join_spec(init.drop_first(), sep));
        assert(rest.last() == xs.last());
        assert(init[0] == xs[0]);
        assert(join_spec(xs, sep) =~= join_spec(init, sep) + seq![sep] + xs.last());
    } else {
        assert(join_spec(rest, sep) == rest[0]);
        assert(join_spec(init, sep) == init[0]);
        assert(join_spec(xs, sep) =~= join_spec(init, sep) + seq![sep] + xs.last());
    }
}

/// Pieces that each end in a comma, concatenated, are their join and a comma.
proof fn lemma_comma_pieces(xs: Seq<Seq<char>>, k: int)
    requires
        1 <= k <= xs.len(),
    ensures
        concat(Seq::new(k as nat, |j: int| xs[j] + ","@)) == join_spec(xs.take(k), ',') + ","@,
    decreases k,
{
    let parts = Seq::new(k as nat, |j: int| xs[j] + ","@);
    reveal_strlit(",");
    assert(","@ =~= seq![',']);
    if k == 1 {
        assert(parts.drop_last() =~= Seq::<Seq<char>>::empty());
        assert(concat(parts.drop_last()) == Seq::<char>::empty());
        assert(concat(parts) == concat(parts.drop_last()) + parts.last());
        assert(xs.take(1).len() == 1);
        assert(join_spec(xs.take(1), ',') == xs.take(1)[0]);
        assert(concat(parts) =~= join_spec(xs.take(k), ',') + ","@);
    } else {
        lemma_comma_pieces(xs, k - 1);
        assert(parts.drop_last() =~= Seq::new((k - 1) as nat, |j: int| xs[j] + ","@));
        assert(concat(parts) == concat(parts.drop_last()) + parts.last());
        lemma_join_push(xs.take(k), ',');
        assert(xs.take(k).drop_last() =~= xs.take(k - 1));
        assert(concat(parts) =~= join_spec(xs.take(k), ',') + ","@);
    }
}

/// Pieces that end in a comma, but the last one in `closer`, concatenated,
/// are their join and `closer`.
proof fn lemma_closed_pieces(xs: Seq<Seq<char>>, closer: Seq<char>, parts: Seq<Seq<char>>)
    requires
        xs.len() >= 1,
        parts.len() == xs.len(),
        forall|j: int|
            0 <= j < xs.len() ==> #[trigger] parts[j] == xs[j] + (if j == xs.len() - 1 {
                closer
            } else {
                ","@
            }),
    ensures
        concat(parts) == join_spec(xs, ',') + closer,
{
    let n = xs.len() as int;
    reveal_strlit(",");
    assert(concat(parts) == concat(parts.drop_last()) + parts.last());
    if n == 1 {
        assert(parts.drop_last() =~= Seq::<Seq<char>>::empty());
        assert(concat(parts.drop_last()) == Seq::<char>::empty());
        assert(join_spec(xs, ',') == xs[0]);
        assert(concat(parts) =~= join_spec(xs, ',') + closer);
    } else {
        assert(parts.drop_last() =~= Seq::new((n - 1) as nat, |j: int| xs[j] + ","@));
        lemma_comma_pieces(xs, n - 1);
        lemma_join_push(xs, ',');
        assert(xs.take(n - 1) =~= xs.drop_last());
        assert(","@ =~= seq![',']);
        assert(concat(parts) =~= join_spec(xs, ',') + closer);
    }
}

/// Law: the counts text is JSON of the expected shape. It is the object that
/// has, for each language in order, the member `"name":{...}` whose value is the
/// object that has, for each folder in order, the member `"folder":count`
/// (there must be at least one folder, as cutting the folder list always gives).
pub proof fn law_counts_json_is_nested_objects(
    names: Seq<Seq<char>>,
    folders: Seq<Seq<char>>,
    counts: Seq<Seq<Seq<char>>>,
)
    requires
        folders.len() >= 1,
    ensures
        counts_json_text(names, folders, counts) == object_text(
            Seq::new(
                names.len(),
                |i: int|
                    member_text(
                        names[i],
                        object_text(
                            Seq::new(folders.len(), |j: int| member_text(folders[j], counts[i][j])),
                        ),
                    ),
            ),
        ),
{
    reveal_strlit(",");
    reveal_strlit("{");
    reveal_strlit("}");
    reveal_strlit("\":");
    reveal_strlit("\":{");
    let nf = folders.len();
    let langs = Seq::new(
        names.len(),
        |i: int|
            member_text(
                names[i],
                object_text(Seq::new(nf, |j: int| member_text(folders[j], counts[i][j]))),
            ),
    );
    assert forall|i: int| 0 <= i < names.len() implies language_entry(
        names[i],
        folders,
        counts[i],
        i == names.len() - 1,
    ) == langs[i] + (if i == names.len() - 1 {
        Seq::<char>::empty()
    } else {
        ","@
    }) by {
        let xs = Seq::new(nf, |j: int| member_text(folders[j], counts[i][j]));
        let a = Seq::new(nf, |j: int| folder_entry(folders[j], counts[i][j], j == nf - 1));
        assert forall|j: int| 0 <= j < xs.len() implies #[trigger] a[j] == xs[j] + (if j == xs.len() - 1 {
            "}"@
        } else {
            ","@
        }) by {
            assert(a[j] =~= xs[j] + (if j == xs.len() - 1 {
                "}"@
            } else {
                ","@
            }));
        }
        lemma_closed_pieces(xs, "}"@, a);
        let tail = if i == names.len() - 1 {
            Seq::<char>::empty()
        } else {
            ","@
        };
        assert(language_entry(names[i], folders, counts[i], i == names.len() - 1) == "\""@
            + names[i] + "\":{"@ + concat(a) + tail);
        assert("\":{"@ =~= "\":"@ + "{"@);
        assert(langs[i] == member_text(names[i], object_text(xs)));
        assert(language_entry(names[i], folders, counts[i], i == names.len() - 1) =~= langs[i] + (
        if i == names.len() - 1 {
            Seq::<char>::empty()
        } else {
            ","@
        }));
    }
    let entries = Seq::new(
        names.len(),
        |i: int| language_entry(names[i], folders, counts[i], i == names.len() - 1),
    );
    if names.len() == 0 {
        assert(entries =~= Seq::<Seq<char>>::empty());
        assert(counts_json_text(names, folders, counts) =~= object_text(langs));
    } else {
        lemma_closed_pieces(langs, Seq::<char>::empty(), entries);
        assert(counts_json_text(names, folders, counts) =~= object_text(langs));
    }
}

/// The integer that a count read from the JSON object stands for, where it is one.
pub open spec fn value_of(c: Option<Count>) -> Option<i64> {
    match c {
        Some(k) => Some(k.value),
        None => None,
    }
}

/// The figures of one language in one folder.
#[derive(Debug, Clone, Copy, PartialEq, Eq, Structural)]
pub struct CellFigures {
    /// The file count of this run.
    pub current: i64,
    /// The count that the last entry of the log holds for this cell.
    pub previous: i64,
    /// `current - previous`, or 0 where the previous count is 0.
    pub difference: i64,
    /// The sum of the counts of all languages in this folder.
    pub folder_total: i64,
}

/// The field of the last entry that holds the previous count of language `l`
/// in folder `f`: two leading fields, then four per folder and two per language.
pub open spec fn previous_position(f: int, l: int) -> int {
    2 + 4 * f + 2 * l
}

/// The sum of the counts of the first `l` languages in folder `f`, added one
/// after the other: `CountNotInteger` at the first count that is no `i64`,
/// `CountTotalOverflow` at the first partial sum that leaves the `i64` range.
pub open spec fn partial_total(counts: Seq<Vec<Option<Count>>>, f: int, l: int) -> Result<i64, Failure>
    decreases l,
{
    if l <= 0 {
        Ok(0)
    } else {
        match partial_total(counts, f, l - 1) {
            Err(e) => Err(e),
            Ok(t) => match value_of(counts[l - 1]@[f]) {
                None => Err(Failure::CountNotInteger),
                Some(c) => if i64::MIN <= t + c <= i64::MAX {
                    Ok((t + c) as i64)
                } else {
                    Err(Failure::CountTotalOverflow)
                },
            },
        }
    }
}

/// The figures of language `l` in folder `f`, given the folder's total.
pub open spec fn cell_figures(
    counts: Seq<Vec<Option<Count>>>,
    previous: Seq<Seq<char>>,
    f: int,
    l: int,
    total: i64,
) -> Result<CellFigures, Failure> {
    let pos = previous_position(f, l);
    if pos >= previous.len() {
        Err(Failure::MissingPreviousField)
    } else {
        match parsed_i64(previous[pos]) {
            None => Err(Failure::PreviousValueNotInteger),
            Some(p) => {
                let c = value_of(counts[l]@[f])->0;
                if p == 0 {
                    Ok(CellFigures { current: c, previous: p, difference: 0, folder_total: total })
                } else if i64::MIN <= c - p <= i64::MAX {
                    Ok(
                        CellFigures {
                            current: c,
                            previous: p,
                            difference: (c - p) as i64,
                            folder_total: total,
                        },
                    )
                } else {
                    Err(Failure::DifferenceOverflow)
                }
            },
        }
    }
}

/// The figures of the first `l` languages of folder `f`, in order, stopping at
/// the first failure.
pub open spec fn folder_cells(
    counts: Seq<Vec<Option<Count>>>,
    previous: Seq<Seq<char>>,
    f: int,
    total: i64,
    l: int,
) -> Result<Seq<CellFigures>, Failure>
    decreases l,
{
    if l <= 0 {
        Ok(Seq::empty())
    } else {
        match folder_cells(counts, previous, f, total, l - 1) {
            Err(e) => Err(e),
            Ok(s) => match cell_figures(counts, previous, f, l - 1, total) {
                Err(e) => Err(e),
                Ok(c) => Ok(s.push(c)),
            },
        }
    }
}

/// The figures of folder `f`: first its total over all languages, then the
/// figures of each language.
pub open spec fn folder_figures(
    counts: Seq<Vec<Option<Count>>>,
    previous: Seq<Seq<char>>,
    f: int,
) -> Result<Seq<CellFigures>, Failure> {
    match partial_total(counts, f, counts.len() as int) {
        Err(e) => Err(e),
        Ok(t) => folder_cells(counts, previous, f, t, counts.len() as int),
    }
}

/// The figures of the first `f` folders, folder after folder, stopping at the
/// first failure.
pub open spec fn figures_upto(counts: Seq<Vec<Option<Count>>>, previous: Seq<Seq<char>>, f: int) -> Result<
    Seq<Seq<CellFigures>>,
    Failure,
>
    decreases f,
{
    if f <= 0 {
        Ok(Seq::empty())
    } else {
        match figures_upto(counts, previous, f - 1) {
            Err(e) => Err(e),
            Ok(s) => match folder_figures(counts, previous, f - 1) {
                Err(e) => Err(e),
                Ok(row) => Ok(s.push(row)),
            },
        }
    }
}

/// The figures of the report, indexed by folder, then by language, for the
/// counts `counts` (indexed by language, then by folder) of `folder_count`
/// folders and the fields `previous` of the last entry. The first two fields
/// must be there before any folder is looked at.
pub open spec fn report_figures_spec(
    counts: Seq<Vec<Option<Count>>>,
    previous: Seq<Seq<char>>,
    folder_count: int,
) -> Result<Seq<Seq<CellFigures>>, Failure> {
    if previous.len() < 2 {
        Err(Failure::MissingPreviousField)
    } else {
        figures_upto(counts, previous, folder_count)
    }
}

/// The figures as vectors, viewed as sequences.
pub open spec fn figure_rows(v: Seq<Vec<CellFigures>>) -> Seq<Seq<CellFigures>> {
    Seq::new(v.len(), |i: int| v[i]@)
}

fn folder_total(counts: &Vec<Vec<Option<Count>>>, f: usize) -> (r: Result<i64, Failure>)
    requires
        forall|l: int| 0 <= l < counts@.len() ==> f < (#[trigger] counts@[l])@.len(),
    ensures
        r == partial_total(counts@, f as int, counts@.len() as int),
{
    let n = counts.len();
    let mut total: i64 = 0;
    let mut l: usize = 0;
    while l < n
        invariant
            n == counts@.len(),
            forall|l: int| 0 <= l < counts@.len() ==> f < (#[trigger] counts@[l])@.len(),
            0 <= l <= n,
            partial_total(counts@, f as int, l as int) == Ok::<i64, Failure>(total),
        decreases n - l,
    {
        match &counts[l][f] {
            None => {
                assert(partial_total(counts@, f as int, l + 1) == Err::<i64, Failure>(Failure::CountNotInteger));
                proof { lemma_partial_total_stays_err(counts@, f as int, l + 1, n as int); }
                return Err(Failure::CountNotInteger);
            },
            Some(c) => {
                match total.checked_add(c.value) {
                    None => {
                        assert(partial_total(counts@, f as int, l + 1) == Err::<i64, Failure>(Failure::CountTotalOverflow));
                        proof { lemma_partial_total_stays_err(counts@, f as int, l + 1, n as int); }
                        return Err(Failure::CountTotalOverflow);
                    },
                    Some(t) => {
                        total = t;
                    },
                }
            },
        }
        l = l + 1;
    }
    Ok(total)
}

proof fn lemma_partial_total_stays_err(counts: Seq<Vec<Option<Count>>>, f: int, l: int, m: int)
    requires
        0 <= l <= m,
        partial_total(counts, f, l) is Err,
    ensures
        partial_total(counts, f, m) == partial_total(counts, f, l),
    decreases m - l,
{
    if m > l {
        lemma_partial_total_stays_err(counts, f, l, m - 1);
    }
}

proof fn lemma_partial_total_values(counts: Seq<Vec<Option<Count>>>, f: int, m: int, l: int)
    requires
        0 <= l < m,
        partial_total(counts, f, m) is Ok,
    ensures
        value_of(counts[l]@[f]) is Some,
    decreases m,
{
    if m - 1 > l {
        lemma_partial_total_values(counts, f, m - 1, l);
    }
}

proof fn lemma_folder_cells_stays_err(
    counts: Seq<Vec<Option<Count>>>,
    previous: Seq<Seq<char>>,
    f: int,
    total: i64,
    l: int,
    m: int,
)
    requires
        0 <= l <= m,
        folder_cells(counts, previous, f, total, l) is Err,
    ensures
        folder_cells(counts, previous, f, total, m) == folder_cells(counts, previous, f, total, l),
    decreases m - l,
{
    if m > l {
        lemma_folder_cells_stays_err(counts, previous, f, total, l, m - 1);
    }
}

proof fn lemma_figures_stays_err(counts: Seq<Vec<Option<Count>>>, previous: Seq<Seq<char>>, f: int, m: int)
    requires
        0 <= f <= m,
        figures_upto(counts, previous, f) is Err,
    ensures
        figures_upto(counts, previous, m) == figures_upto(counts, previous, f),
    decreases m - f,
{
    if m > f {
        lemma_figures_stays_err(counts, previous, f, m - 1);
    }
}

fn one_cell(
    counts: &Vec<Vec<Option<Count>>>,
    previous: &Vec<String>,
    f: usize,
    l: usize,
    total: i64,
) -> (r: Result<CellFigures, Failure>)
    requires
        l < counts@.len(),
        f < counts@[l as int]@.len(),
        value_of(counts@[l as int]@[f as int]) is Some,
    ensures
        r == cell_figures(counts@, string_views(previous@), f as int, l as int, total),
{
    let ghost prev = string_views(previous@);
    assert(prev.len() == previous@.len());
    let pos: Option<usize> = match f.checked_mul(4) {
        Some(a) => match a.checked_add(2) {
            Some(b) => match l.checked_mul(2) {
                Some(c) => b.checked_add(c),
                None => None,
            },
            None => None,
        },
        None => None,
    };
    let pos = match pos {
        Some(p) => {
            assert(p == previous_position(f as int, l as int));
            if p >= previous.len() {
                assert(previous_position(f as int, l as int) >= prev.len());
                assert(cell_figures(counts@, prev, f as int, l as int, total) == Err::<CellFigures, Failure>(Failure::MissingPreviousField));
                return Err(Failure::MissingPreviousField);
            }
            p
        },
        None => {
            let plen = previous.len();
            assert(previous_position(f as int, l as int) > usize::MAX);
            assert(previous_position(f as int, l as int) > plen);
            return Err(Failure::MissingPreviousField);
        },
    };
    assert(prev[pos as int] == previous@[pos as int]@);
    let p = match parse_i64(previous[pos].as_str()) {
        Some(p) => p,
        None => return Err(Failure::PreviousValueNotInteger),
    };
    let c = match &counts[l][f] {
        Some(k) => k.value,
        None => {
            assert(false);
            return Err(Failure::CountNotInteger);
        },
    };
    if p == 0 {
        Ok(CellFigures { current: c, previous: p, difference: 0, folder_total: total })
    } else {
        match c.checked_sub(p) {
            Some(d) => Ok(CellFigures { current: c, previous: p, difference: d, folder_total: total }),
            None => Err(Failure::DifferenceOverflow),
        }
    }
}

/// See [`report_figures_spec`]: the figures of `folder_count` folders, from the
/// counts read from the JSON object and the fields of the last entry.
pub fn report_figures(
    counts: &Vec<Vec<Option<Count>>>,
    previous: &Vec<String>,
    folder_count: usize,
) -> (r: Result<Vec<Vec<CellFigures>>, Failure>)
    requires
        forall|l: int| 0 <= l < counts@.len() ==> (#[trigger] counts@[l])@.len() == folder_count,
    ensures
        match r {
            Ok(v) => report_figures_spec(counts@, string_views(previous@), folder_count as int)
                == Ok::<Seq<Seq<CellFigures>>, Failure>(figure_rows(v@)),
            Err(e) => report_figures_spec(counts@, string_views(previous@), folder_count as int)
                == Err::<Seq<Seq<CellFigures>>, Failure>(e),
        },
{
    let ghost prev = string_views(previous@);
    assert(prev.len() == previous@.len());
    if previous.len() < 2 {
        return Err(Failure::MissingPreviousField);
    }
    let nl = counts.len();
    let mut out: Vec<Vec<CellFigures>> = Vec::new();
    let mut f: usize = 0;
    assert(figure_rows(out@) =~= Seq::<Seq<CellFigures>>::empty());
    while f < folder_count
        invariant
            nl == counts@.len(),
            forall|l: int| 0 <= l < counts@.len() ==> (#[trigger] counts@[l])@.len() == folder_count,
            prev == string_views(previous@),
            0 <= f <= folder_count,
            figures_upto(counts@, prev, f as int) == Ok::<Seq<Seq<CellFigures>>, Failure>(
                figure_rows(out@),
            ),
            previous@.len() >= 2,
        decreases folder_count - f,
    {
        let total = match folder_total(counts, f) {
            Ok(t) => t,
            Err(e) => {
                proof {
                    assert(figures_upto(counts@, prev, f + 1) == Err::<Seq<Seq<CellFigures>>, Failure>(e));
                    lemma_figures_stays_err(counts@, prev, f + 1, folder_count as int);
                }
                return Err(e);
            },
        };
        let mut row: Vec<CellFigures> = Vec::new();
        let mut l: usize = 0;
        while l < nl
            invariant
                nl == counts@.len(),
                forall|l: int| 0 <= l < counts@.len() ==> (#[trigger] counts@[l])@.len() == folder_count,
                prev == string_views(previous@),
                0 <= f < folder_count,
                0 <= l <= nl,
                partial_total(counts@, f as int, nl as int) == Ok::<i64, Failure>(total),
                figures_upto(counts@, prev, f as int) == Ok::<Seq<Seq<CellFigures>>, Failure>(
                    figure_rows(out@),
                ),
                previous@.len() >= 2,
                folder_cells(counts@, prev, f as int, total, l as int) == Ok::<Seq<CellFigures>, Failure>(row@),
            decreases nl - l,
        {
            proof {
                lemma_partial_total_values(counts@, f as int, nl as int, l as int);
            }
            match one_cell(counts, previous, f, l, total) {
                Ok(c) => {
                    row.push(c);
                },
                Err(e) => {
                    proof {
                        assert(folder_cells(counts@, prev, f as int, total, l + 1) == Err::<Seq<CellFigures>, Failure>(e));
                        lemma_folder_cells_stays_err(counts@, prev, f as int, total, l + 1, nl as int);
                        assert(folder_figures(counts@, prev, f as int) == Err::<Seq<CellFigures>, Failure>(e));
                        assert(figures_upto(counts@, prev, f + 1) == Err::<Seq<Seq<CellFigures>>, Failure>(e));
                        lemma_figures_stays_err(counts@, prev, f + 1, folder_count as int);
                    }
                    return Err(e);
                },
            }
            l = l + 1;
        }
        let ghost before = figure_rows(out@);
        out.push(row);
        proof {
            assert(folder_figures(counts@, prev, f as int) == Ok::<Seq<CellFigures>, Failure>(row@));
            assert(figure_rows(out@) =~= before.push(row@));
        }
        f = f + 1;
    }
    Ok(out)
}

/// The cells of folder `f`, in language order.
pub open spec fn cells_of(languages: int, cell: spec_fn(int, int) -> Seq<char>, f: int) -> Seq<Seq<char>> {
    Seq::new(languages as nat, |l: int| cell(f, l))
}

/// The part of [`grid_text`] for folder `f`: its lead, then its cells.
pub open spec fn folder_text(
    languages: int,
    lead: spec_fn(int) -> Seq<char>,
    cell: spec_fn(int, int) -> Seq<char>,
    f: int,
) -> Seq<char> {
    lead(f) + concat(cells_of(languages, cell, f))
}

/// The parts of [`grid_text`], one per folder.
pub open spec fn folder_texts(
    folders: int,
    languages: int,
    lead: spec_fn(int) -> Seq<char>,
    cell: spec_fn(int, int) -> Seq<char>,
) -> Seq<Seq<char>> {
    Seq::new(folders as nat, |f: int| folder_text(languages, lead, cell, f))
}

/// The text of a grid of `folders` x `languages` cells, folder after folder:
/// for each folder its `lead`, then its cells in language order.
pub open spec fn grid_text(
    folders: int,
    languages: int,
    lead: spec_fn(int) -> Seq<char>,
    cell: spec_fn(int, int) -> Seq<char>,
) -> Seq<char> {
    concat(folder_texts(folders, languages, lead, cell))
}

/// The first `f` folders of a grid, then the lead and the first `l` cells of folder `f`.
spec fn grid_prefix(
    folders: int,
    languages: int,
    lead: spec_fn(int) -> Seq<char>,
    cell: spec_fn(int, int) -> Seq<char>,
    f: int,
    l: int,
) -> Seq<char> {
    concat(folder_texts(folders, languages, lead, cell).take(f)) + lead(f) + concat(
        cells_of(languages, cell, f).take(l),
    )
}

proof fn lemma_grid_start(
    folders: int,
    languages: int,
    lead: spec_fn(int) -> Seq<char>,
    cell: spec_fn(int, int) -> Seq<char>,
    f: int,
)
    requires
        0 <= f <= folders,
        languages >= 0,
    ensures
        grid_prefix(folders, languages, lead, cell, f, 0) == concat(
            folder_texts(folders, languages, lead, cell).take(f),
        ) + lead(f),
{
    assert(cells_of(languages, cell, f).take(0) =~= Seq::<Seq<char>>::empty());
    assert(concat(cells_of(languages, cell, f).take(0)) =~= Seq::<char>::empty());
    assert(grid_prefix(folders, languages, lead, cell, f, 0) =~= concat(
        folder_texts(folders, languages, lead, cell).take(f),
    ) + lead(f));
}

proof fn lemma_grid_cell(
    folders: int,
    languages: int,
    lead: spec_fn(int) -> Seq<char>,
    cell: spec_fn(int, int) -> Seq<char>,
    f: int,
    l: int,
)
    requires
        0 <= f < folders,
        0 <= l < languages,
    ensures
        grid_prefix(folders, languages, lead, cell, f, l + 1) == grid_prefix(
            folders,
            languages,
            lead,
            cell,
            f,
            l,
        ) + cell(f, l),
{
    lemma_concat_push(cells_of(languages, cell, f), l);
    assert(grid_prefix(folders, languages, lead, cell, f, l + 1) =~= grid_prefix(
        folders,
        languages,
        lead,
        cell,
        f,
        l,
    ) + cell(f, l));
}

proof fn lemma_grid_folder(
    folders: int,
    languages: int,
    lead: spec_fn(int) -> Seq<char>,
    cell: spec_fn(int, int) -> Seq<char>,
    f: int,
)
    requires
        0 <= f < folders,
        languages >= 0,
    ensures
        grid_prefix(folders, languages, lead, cell, f, languages) == concat(
            folder_texts(folders, languages, lead, cell).take(f + 1),
        ),
{
    let outer = folder_texts(folders, languages, lead, cell);
    lemma_concat_push(outer, f);
    assert(cells_of(languages, cell, f).take(languages) =~= cells_of(languages, cell, f));
    assert(grid_prefix(folders, languages, lead, cell, f, languages) =~= concat(outer.take(f))
        + outer[f]);
}

proof fn lemma_grid_end(
    folders: int,
    languages: int,
    lead: spec_fn(int) -> Seq<char>,
    cell: spec_fn(int, int) -> Seq<char>,
)
    requires
        folders >= 0,
    ensures
        concat(folder_texts(folders, languages, lead, cell).take(folders)) == grid_text(
            folders,
            languages,
            lead,
            cell,
        ),
        concat(folder_texts(folders, languages, lead, cell).take(0)) == Seq::<char>::empty(),
{
    let outer = folder_texts(folders, languages, lead, cell);
    assert(outer.take(folders) =~= outer);
    assert(outer.take(0) =~= Seq::<Seq<char>>::empty());
}

/// Whether cell `(f, l)` is the last one of the report.
pub open spec fn is_last_cell(f: int, l: int, folders: int, languages: int) -> bool {
    f == folders - 1 && l == languages - 1
}

/// What follows a field in every row but the current one: one comma after the
/// last cell, two after every other.
pub open spec fn separator(last: bool) -> Seq<char> {
    if last {
        ","@
    } else {
        ",,"@
    }
}

/// The six rows of the report.
pub struct ReportRows {
    /// `Language Count,,` and the folder names.
    pub folder_header: String,
    /// The language of every column.
    pub language_header: String,
    /// The leading fields and the counts of the last entry.
    pub previous_row: String,
    /// The version, the date, and for each cell the count and its share of the folder.
    pub current_row: String,
    /// The change of each count.
    pub difference_row: String,
    /// The change of each count in percent of the previous count.
    pub change_row: String,
}

/// The text of the count of language `l` in folder `f`, as read from the JSON object.
pub open spec fn count_text(counts: Seq<Vec<Option<Count>>>, f: int, l: int) -> Seq<char> {
    match counts[l]@[f] {
        Some(c) => c.text@,
        None => Seq::empty(),
    }
}

/// The text at row `f`, column `l` of a table of strings.
pub open spec fn table_text(t: Seq<Vec<String>>, f: int, l: int) -> Seq<char> {
    t[f]@[l]@
}

/// No lead before the cells of a folder.
pub open spec fn no_lead() -> spec_fn(int) -> Seq<char> {
    |f: int| Seq::<char>::empty()
}

/// The folder name before the cells of a folder.
pub open spec fn folder_lead(folders: Seq<Seq<char>>) -> spec_fn(int) -> Seq<char> {
    |f: int| folders[f]
}

/// Cells of the folder header: a separator each.
pub open spec fn separator_cells(nf: int, nl: int) -> spec_fn(int, int) -> Seq<char> {
    |f: int, l: int| separator(is_last_cell(f, l, nf, nl))
}

/// Cells of the language header: the language name and a separator.
pub open spec fn name_cells(nf: int, names: Seq<Seq<char>>) -> spec_fn(int, int) -> Seq<char> {
    |f: int, l: int| names[l] + separator(is_last_cell(f, l, nf, names.len() as int))
}

/// Cells of the previous row: the field at [`previous_position`] and a separator.
pub open spec fn previous_cells(nf: int, nl: int, previous: Seq<Seq<char>>) -> spec_fn(int, int) -> Seq<char> {
    |f: int, l: int| previous[previous_position(f, l)] + separator(is_last_cell(f, l, nf, nl))
}

/// Cells of the current row: the count, a comma, the share of the folder, and
/// a comma unless it is the last cell.
pub open spec fn current_cells(
    nf: int,
    nl: int,
    counts: Seq<Vec<Option<Count>>>,
    shares: Seq<Vec<String>>,
) -> spec_fn(int, int) -> Seq<char> {
    |f: int, l: int|
        count_text(counts, f, l) + ","@ + table_text(shares, f, l) + (if is_last_cell(f, l, nf, nl) {
            Seq::<char>::empty()
        } else {
            ","@
        })
}

/// Cells of the difference row: the difference and a separator.
pub open spec fn difference_cells(nf: int, nl: int, figures: Seq<Vec<CellFigures>>) -> spec_fn(int, int) -> Seq<char> {
    |f: int, l: int| integer_text(figures[f]@[l].difference as int) + separator(is_last_cell(f, l, nf, nl))
}

/// Cells of the change row: the change in percent and a separator.
pub open spec fn change_cells(nf: int, nl: int, changes: Seq<Vec<String>>) -> spec_fn(int, int) -> Seq<char> {
    |f: int, l: int| table_text(changes, f, l) + separator(is_last_cell(f, l, nf, nl))
}

/// `Language Count,,`, then each folder followed by one separator per language.
pub open spec fn folder_header_text(folders: Seq<Seq<char>>, nl: int) -> Seq<char> {
    let nf = folders.len() as int;
    "Language Count,,"@ + grid_text(nf, nl, folder_lead(folders), separator_cells(nf, nl))
}

/// `,,`, then the language name of each cell followed by its separator.
pub open spec fn language_header_text(nf: int, names: Seq<Seq<char>>) -> Seq<char> {
    ",,"@ + grid_text(nf, names.len() as int, no_lead(), name_cells(nf, names))
}

/// The first two fields of the last entry, then the previous count of each
/// cell followed by its separator.
pub open spec fn previous_row_text(nf: int, nl: int, previous: Seq<Seq<char>>) -> Seq<char> {
    previous[0] + ","@ + previous[1] + ","@ + grid_text(nf, nl, no_lead(), previous_cells(nf, nl, previous))
}

/// The version and the date, then the cells of [`current_cells`].
pub open spec fn current_row_text(
    nf: int,
    nl: int,
    version: Seq<char>,
    date: Seq<char>,
    counts: Seq<Vec<Option<Count>>>,
    shares: Seq<Vec<String>>,
) -> Seq<char> {
    version + ","@ + date + ","@ + grid_text(nf, nl, no_lead(), current_cells(nf, nl, counts, shares))
}

/// `,,`, then the difference of each cell followed by its separator.
pub open spec fn difference_row_text(nf: int, nl: int, figures: Seq<Vec<CellFigures>>) -> Seq<char> {
    ",,"@ + grid_text(nf, nl, no_lead(), difference_cells(nf, nl, figures))
}

/// `,,`, then the change in percent of each cell followed by its separator.
pub open spec fn change_row_text(nf: int, nl: int, changes: Seq<Vec<String>>) -> Seq<char> {
    ",,"@ + grid_text(nf, nl, no_lead(), change_cells(nf, nl, changes))
}

/// The shape that the rows need of their inputs: `nf` folders and `nl`
/// languages, counts indexed by language then folder, the other tables by
/// folder then language, and a last entry that holds every field the rows read.
pub open spec fn rows_inputs_fit(
    nf: int,
    nl: int,
    previous: Seq<Seq<char>>,
    counts: Seq<Vec<Option<Count>>>,
    figures: Seq<Vec<CellFigures>>,
    shares: Seq<Vec<String>>,
    changes: Seq<Vec<String>>,
) -> bool {
    &&& previous.len() >= 2
    &&& counts.len() == nl
    &&& (forall|l: int| 0 <= l < nl ==> (#[trigger] counts[l])@.len() == nf)
    &&& figures.len() == nf
    &&& (forall|f: int| 0 <= f < nf ==> (#[trigger] figures[f])@.len() == nl)
    &&& shares.len() == nf
    &&& (forall|f: int| 0 <= f < nf ==> (#[trigger] shares[f])@.len() == nl)
    &&& changes.len() == nf
    &&& (forall|f: int| 0 <= f < nf ==> (#[trigger] changes[f])@.len() == nl)
    &&& (forall|f: int, l: int|
        0 <= f < nf && 0 <= l < nl ==> #[trigger] previous_position(f, l) < previous.len())
}

fn push_cell(
    rows: &mut ReportRows,
    f: usize,
    l: usize,
    nf: usize,
    names: &Vec<String>,
    previous: &Vec<String>,
    counts: &Vec<Vec<Option<Count>>>,
    figures: &Vec<Vec<CellFigures>>,
    shares: &Vec<Vec<String>>,
    changes: &Vec<Vec<String>>,
)
    requires
        rows_inputs_fit(
            nf as int,
            names@.len() as int,
            string_views(previous@),
            counts@,
            figures@,
            shares@,
            changes@,
        ),
        f < nf,
        l < names@.len(),
    ensures
        ({
            let (inf, inl) = (nf as int, names@.len() as int);
            &&& final(rows).folder_header@ == old(rows).folder_header@ + separator_cells(inf, inl)(
                f as int,
                l as int,
            )
            &&& final(rows).language_header@ == old(rows).language_header@ + name_cells(
                inf,
                string_views(names@),
            )(f as int, l as int)
            &&& final(rows).previous_row@ == old(rows).previous_row@ + previous_cells(
                inf,
                inl,
                string_views(previous@),
            )(f as int, l as int)
            &&& final(rows).current_row@ == old(rows).current_row@ + current_cells(
                inf,
                inl,
                counts@,
                shares@,
            )(f as int, l as int)
            &&& final(rows).difference_row@ == old(rows).difference_row@ + difference_cells(
                inf,
                inl,
                figures@,
            )(f as int, l as int)
            &&& final(rows).change_row@ == old(rows).change_row@ + change_cells(inf, inl, changes@)(
                f as int,
                l as int,
            )
        }),
{
    let nl = names.len();
    let ghost (inf, inl, fi, li) = (nf as int, nl as int, f as int, l as int);
    let ghost prev = string_views(previous@);
    let last = f + 1 == nf && l + 1 == nl;
    let sep = if last {
        ","
    } else {
        ",,"
    };
    assert(last == is_last_cell(fi, li, inf, inl));
    assert(sep@ == separator(last));
    assert(prev.len() == previous@.len());
    assert(previous_position(fi, li) < prev.len());
    let plen = previous.len();
    assert(2 + 4 * f + 2 * l < plen);
    let pos = 2 + 4 * f + 2 * l;
    assert(prev[pos as int] == previous@[pos as int]@);
    assert(string_views(names@)[li] == names@[li]@);
    rows.folder_header.append(sep);
    rows.language_header.append(names[l].as_str());
    rows.language_header.append(sep);
    rows.previous_row.append(previous[pos].as_str());
    rows.previous_row.append(sep);
    match &counts[l][f] {
        Some(c) => rows.current_row.append(c.text.as_str()),
        None => {},
    }
    rows.current_row.append(",");
    rows.current_row.append(shares[f][l].as_str());
    if !last {
        rows.current_row.append(",");
    }
    let diff_text = integer_to_text(figures[f][l].difference);
    rows.difference_row.append(diff_text.as_str());
    rows.difference_row.append(sep);
    rows.change_row.append(changes[f][l].as_str());
    rows.change_row.append(sep);
    assert(rows.folder_header@ =~= old(rows).folder_header@ + separator_cells(inf, inl)(fi, li));
    assert(rows.language_header@ =~= old(rows).language_header@ + name_cells(inf, string_views(names@))(fi, li));
    assert(rows.previous_row@ =~= old(rows).previous_row@ + previous_cells(inf, inl, prev)(fi, li));
    assert(rows.current_row@ =~= old(rows).current_row@ + current_cells(inf, inl, counts@, shares@)(fi, li));
    assert(rows.difference_row@ =~= old(rows).difference_row@ + difference_cells(inf, inl, figures@)(fi, li));
    assert(rows.change_row@ =~= old(rows).change_row@ + change_cells(inf, inl, changes@)(fi, li));
}

/// The six rows of the report for the folders `folders`, the language names
/// `names`, the fields `previous` of the last entry, the counts read from the
/// JSON object, the figures, and the share and change texts of each cell.
pub fn report_rows(
    version: &str,
    date: &str,
    folders: &Vec<String>,
    names: &Vec<String>,
    previous: &Vec<String>,
    counts: &Vec<Vec<Option<Count>>>,
    figures: &Vec<Vec<CellFigures>>,
    shares: &Vec<Vec<String>>,
    changes: &Vec<Vec<String>>,
) -> (r: ReportRows)
    requires
        rows_inputs_fit(
            folders@.len() as int,
            names@.len() as int,
            string_views(previous@),
            counts@,
            figures@,
            shares@,
            changes@,
        ),
    ensures
        r.folder_header@ == folder_header_text(string_views(folders@), names@.len() as int),
        r.language_header@ == language_header_text(folders@.len() as int, string_views(names@)),
        r.previous_row@ == previous_row_text(
            folders@.len() as int,
            names@.len() as int,
            string_views(previous@),
        ),
        r.current_row@ == current_row_text(
            folders@.len() as int,
            names@.len() as int,
            version@,
            date@,
            counts@,
            shares@,
        ),
        r.difference_row@ == difference_row_text(folders@.len() as int, names@.len() as int, figures@),
        r.change_row@ == change_row_text(folders@.len() as int, names@.len() as int, changes@),
{
    let nf = folders.len();
    let nl = names.len();
    let ghost (inf, inl) = (nf as int, nl as int);
    let ghost fs = string_views(folders@);
    let ghost ns = string_views(names@);
    let ghost prev = string_views(previous@);
    let ghost lead_f = folder_lead(fs);
    let ghost lead_0 = no_lead();
    let ghost c_sep = separator_cells(inf, inl);
    let ghost c_name = name_cells(inf, ns);
    let ghost c_prev = previous_cells(inf, inl, prev);
    let ghost c_cur = current_cells(inf, inl, counts@, shares@);
    let ghost c_diff = difference_cells(inf, inl, figures@);
    let ghost c_chg = change_cells(inf, inl, changes@);
    assert(prev.len() == previous@.len());
    assert(prev[0] == previous@[0]@ && prev[1] == previous@[1]@);
    let mut rows = ReportRows {
        folder_header: String::new(),
        language_header: String::new(),
        previous_row: String::new(),
        current_row: String::new(),
        difference_row: String::new(),
        change_row: String::new(),
    };
    rows.folder_header.append("Language Count,,");
    rows.language_header.append(",,");
    rows.previous_row.append(previous[0].as_str());
    rows.previous_row.append(",");
    rows.previous_row.append(previous[1].as_str());
    rows.previous_row.append(",");
    rows.current_row.append(version);
    rows.current_row.append(",");
    rows.current_row.append(date);
    rows.current_row.append(",");
    rows.difference_row.append(",,");
    rows.change_row.append(",,");
    let ghost h_fh = rows.folder_header@;
    let ghost h_lh = rows.language_header@;
    let ghost h_pr = rows.previous_row@;
    let ghost h_cr = rows.current_row@;
    let ghost h_dr = rows.difference_row@;
    let ghost h_ch = rows.change_row@;
    proof {
        lemma_grid_end(inf, inl, lead_f, c_sep);
        lemma_grid_end(inf, inl, lead_0, c_name);
        lemma_grid_end(inf, inl, lead_0, c_prev);
        lemma_grid_end(inf, inl, lead_0, c_cur);
        lemma_grid_end(inf, inl, lead_0, c_diff);
        lemma_grid_end(inf, inl, lead_0, c_chg);
        assert(rows.folder_header@ =~= h_fh + concat(folder_texts(inf, inl, lead_f, c_sep).take(0)));
        assert(rows.language_header@ =~= h_lh + concat(folder_texts(inf, inl, lead_0, c_name).take(0)));
        assert(rows.previous_row@ =~= h_pr + concat(folder_texts(inf, inl, lead_0, c_prev).take(0)));
        assert(rows.current_row@ =~= h_cr + concat(folder_texts(inf, inl, lead_0, c_cur).take(0)));
        assert(rows.difference_row@ =~= h_dr + concat(folder_texts(inf, inl, lead_0, c_diff).take(0)));
        assert(rows.change_row@ =~= h_ch + concat(folder_texts(inf, inl, lead_0, c_chg).take(0)));
    }
    let mut f: usize = 0;
    while f < nf
        invariant
            nf == folders@.len(),
            nl == names@.len(),
            inf == nf,
            inl == nl,
            fs == string_views(folders@),
            ns == string_views(names@),
            prev == string_views(previous@),
            lead_f == folder_lead(fs),
            lead_0 == no_lead(),
            c_sep == separator_cells(inf, inl),
            c_name == name_cells(inf, ns),
            c_prev == previous_cells(inf, inl, prev),
            c_cur == current_cells(inf, inl, counts@, shares@),
            c_diff == difference_cells(inf, inl, figures@),
            c_chg == change_cells(inf, inl, changes@),
            rows_inputs_fit(inf, inl, prev, counts@, figures@, shares@, changes@),
            0 <= f <= nf,
            rows.folder_header@ == h_fh + concat(folder_texts(inf, inl, lead_f, c_sep).take(f as int)),
            rows.language_header@ == h_lh + concat(folder_texts(inf, inl, lead_0, c_name).take(f as int)),
            rows.previous_row@ == h_pr + concat(folder_texts(inf, inl, lead_0, c_prev).take(f as int)),
            rows.current_row@ == h_cr + concat(folder_texts(inf, inl, lead_0, c_cur).take(f as int)),
            rows.difference_row@ == h_dr + concat(folder_texts(inf, inl, lead_0, c_diff).take(f as int)),
            rows.change_row@ == h_ch + concat(folder_texts(inf, inl, lead_0, c_chg).take(f as int)),
        decreases nf - f,
    {
        rows.folder_header.append(folders[f].as_str());
        proof {
            lemma_grid_start(inf, inl, lead_f, c_sep, f as int);
            lemma_grid_start(inf, inl, lead_0, c_name, f as int);
            lemma_grid_start(inf, inl, lead_0, c_prev, f as int);
            lemma_grid_start(inf, inl, lead_0, c_cur, f as int);
            lemma_grid_start(inf, inl, lead_0, c_diff, f as int);
            lemma_grid_start(inf, inl, lead_0, c_chg, f as int);
            assert(lead_f(f as int) == fs[f as int]);
            assert(lead_0(f as int) == Seq::<char>::empty());
            assert(rows.folder_header@ =~= h_fh + grid_prefix(inf, inl, lead_f, c_sep, f as int, 0));
            assert(rows.language_header@ =~= h_lh + grid_prefix(inf, inl, lead_0, c_name, f as int, 0));
            assert(rows.previous_row@ =~= h_pr + grid_prefix(inf, inl, lead_0, c_prev, f as int, 0));
            assert(rows.current_row@ =~= h_cr + grid_prefix(inf, inl, lead_0, c_cur, f as int, 0));
            assert(rows.difference_row@ =~= h_dr + grid_prefix(inf, inl, lead_0, c_diff, f as int, 0));
            assert(rows.change_row@ =~= h_ch + grid_prefix(inf, inl, lead_0, c_chg, f as int, 0));
        }
        let mut l: usize = 0;
        while l < nl
            invariant
                nf == folders@.len(),
                nl == names@.len(),
                inf == nf,
                inl == nl,
                ns == string_views(names@),
                prev == string_views(previous@),
                lead_f == folder_lead(fs),
                lead_0 == no_lead(),
                c_sep == separator_cells(inf, inl),
                c_name == name_cells(inf, ns),
                c_prev == previous_cells(inf, inl, prev),
                c_cur == current_cells(inf, inl, counts@, shares@),
                c_diff == difference_cells(inf, inl, figures@),
                c_chg == change_cells(inf, inl, changes@),
                rows_inputs_fit(inf, inl, prev, counts@, figures@, shares@, changes@),
                0 <= f < nf,
                0 <= l <= nl,
                rows.folder_header@ == h_fh + grid_prefix(inf, inl, lead_f, c_sep, f as int, l as int),
                rows.language_header@ == h_lh + grid_prefix(inf, inl, lead_0, c_name, f as int, l as int),
                rows.previous_row@ == h_pr + grid_prefix(inf, inl, lead_0, c_prev, f as int, l as int),
                rows.current_row@ == h_cr + grid_prefix(inf, inl, lead_0, c_cur, f as int, l as int),
                rows.difference_row@ == h_dr + grid_prefix(inf, inl, lead_0, c_diff, f as int, l as int),
                rows.change_row@ == h_ch + grid_prefix(inf, inl, lead_0, c_chg, f as int, l as int),
            decreases nl - l,
        {
            push_cell(&mut rows, f, l, nf, names, previous, counts, figures, shares, changes);
            proof {
                let (fi, li) = (f as int, l as int);
                lemma_grid_cell(inf, inl, lead_f, c_sep, fi, li);
                lemma_grid_cell(inf, inl, lead_0, c_name, fi, li);
                lemma_grid_cell(inf, inl, lead_0, c_prev, fi, li);
                lemma_grid_cell(inf, inl, lead_0, c_cur, fi, li);
                lemma_grid_cell(inf, inl, lead_0, c_diff, fi, li);
                lemma_grid_cell(inf, inl, lead_0, c_chg, fi, li);
            }
            l = l + 1;
        }
        proof {
            lemma_grid_folder(inf, inl, lead_f, c_sep, f as int);
            lemma_grid_folder(inf, inl, lead_0, c_name, f as int);
            lemma_grid_folder(inf, inl, lead_0, c_prev, f as int);
            lemma_grid_folder(inf, inl, lead_0, c_cur, f as int);
            lemma_grid_folder(inf, inl, lead_0, c_diff, f as int);
            lemma_grid_folder(inf, inl, lead_0, c_chg, f as int);
        }
        f = f + 1;
    }
    rows
}

proof fn lemma_folder_cells_ok(
    counts: Seq<Vec<Option<Count>>>,
    previous: Seq<Seq<char>>,
    f: int,
    total: i64,
    l: int,
)
    requires
        l >= 0,
        folder_cells(counts, previous, f, total, l) is Ok,
    ensures
        ({
            let s = folder_cells(counts, previous, f, total, l)->Ok_0;
            &&& s.len() == l
            &&& forall|k: int| 0 <= k < l ==> #[trigger] previous_position(f, k) < previous.len()
        }),
    decreases l,
{
    if l > 0 {
        lemma_folder_cells_ok(counts, previous, f, total, l - 1);
    }
}

proof fn lemma_figures_upto_ok(counts: Seq<Vec<Option<Count>>>, previous: Seq<Seq<char>>, f: int)
    requires
        f >= 0,
        figures_upto(counts, previous, f) is Ok,
    ensures
        ({
            let s = figures_upto(counts, previous, f)->Ok_0;
            &&& s.len() == f
            &&& forall|g: int| 0 <= g < f ==> (#[trigger] s[g]).len() == counts.len()
            &&& forall|g: int, k: int|
                0 <= g < f && 0 <= k < counts.len() ==> #[trigger] previous_position(g, k)
                    < previous.len()
        }),
    decreases f,
{
    if f > 0 {
        lemma_figures_upto_ok(counts, previous, f - 1);
        let t = partial_total(counts, f - 1, counts.len() as int)->Ok_0;
        lemma_folder_cells_ok(counts, previous, f - 1, t, counts.len() as int);
    }
}

/// Where the figures of a report could be worked out, they fit the rows: the
/// last entry holds every field that the rows read, and there are as many rows
/// of figures as folders and as many figures in a row as languages.
pub proof fn lemma_report_figures_fit(
    counts: Seq<Vec<Option<Count>>>,
    previous: Seq<Seq<char>>,
    folder_count: int,
    figures: Seq<Vec<CellFigures>>,
)
    requires
        folder_count >= 0,
        report_figures_spec(counts, previous, folder_count) == Ok::<Seq<Seq<CellFigures>>, Failure>(
            figure_rows(figures),
        ),
    ensures
        previous.len() >= 2,
        figures.len() == folder_count,
        forall|f: int| 0 <= f < folder_count ==> (#[trigger] figures[f])@.len() == counts.len(),
        forall|f: int, l: int|
            0 <= f < folder_count && 0 <= l < counts.len() ==> #[trigger] previous_position(f, l)
                < previous.len(),
{
    lemma_figures_upto_ok(counts, previous, folder_count);
    let s = figures_upto(counts, previous, folder_count)->Ok_0;
    assert(figure_rows(figures).len() == figures.len());
    assert forall|f: int| 0 <= f < folder_count implies (#[trigger] figures[f])@.len() == counts.len() by {
        assert(figure_rows(figures)[f] == figures[f]@);
        assert(s[f].len() == counts.len());
    }
}

/// The sum of the current counts of `cells`.
pub open spec fn sum_of_current(cells: Seq<CellFigures>) -> int
    decreases cells.len(),
{
    if cells.len() == 0 {
        0
    } else {
        sum_of_current(cells.drop_last()) + cells.last().current
    }
}

proof fn lemma_folder_cells_facts(
    counts: Seq<Vec<Option<Count>>>,
    previous: Seq<Seq<char>>,
    f: int,
    total: i64,
    l: int,
)
    requires
        l >= 0,
        folder_cells(counts, previous, f, total, l) is Ok,
    ensures
        ({
            let s = folder_cells(counts, previous, f, total, l)->Ok_0;
            &&& s.len() == l
            &&& forall|k: int| 0 <= k < l ==> (#[trigger] s[k]).folder_total == total
            &&& forall|k: int| 0 <= k < l ==> (#[trigger] s[k]).current == value_of(counts[k]@[f])->0
            &&& forall|k: int|
                0 <= k < l ==> ((#[trigger] s[k]).previous == 0 ==> s[k].difference == 0)
                    && (s[k].previous != 0 ==> s[k].difference == s[k].current - s[k].previous)
            &&& forall|k: int|
                0 <= k < l ==> previous_position(f, k) < previous.len() && parsed_i64(
                    previous[previous_position(f, k)],
                ) == Some((#[trigger] s[k]).previous)
        }),
    decreases l,
{
    if l > 0 {
        lemma_folder_cells_facts(counts, previous, f, total, l - 1);
    }
}

proof fn lemma_partial_total_sum(
    counts: Seq<Vec<Option<Count>>>,
    previous: Seq<Seq<char>>,
    f: int,
    total: i64,
    l: int,
)
    requires
        0 <= l <= counts.len(),
        folder_cells(counts, previous, f, total, counts.len() as int) is Ok,
        partial_total(counts, f, l) is Ok,
    ensures
        ({
            let s = folder_cells(counts, previous, f, total, counts.len() as int)->Ok_0;
            partial_total(counts, f, l)->Ok_0 == sum_of_current(s.take(l))
        }),
    decreases l,
{
    let s = folder_cells(counts, previous, f, total, counts.len() as int)->Ok_0;
    lemma_folder_cells_facts(counts, previous, f, total, counts.len() as int);
    if l > 0 {
        assert(partial_total(counts, f, l - 1) is Ok);
        lemma_partial_total_sum(counts, previous, f, total, l - 1);
        assert(s.take(l).drop_last() =~= s.take(l - 1));
        assert(s[l - 1].current == value_of(counts[l - 1]@[f])->0);
        lemma_partial_total_values(counts, f, l, l - 1);
    } else {
        assert(s.take(0) =~= Seq::<CellFigures>::empty());
    }
}

proof fn lemma_figures_rows(counts: Seq<Vec<Option<Count>>>, previous: Seq<Seq<char>>, f: int, g: int)
    requires
        0 <= g < f,
        figures_upto(counts, previous, f) is Ok,
    ensures
        folder_figures(counts, previous, g) == Ok::<Seq<CellFigures>, Failure>(
            figures_upto(counts, previous, f)->Ok_0[g],
        ),
        figures_upto(counts, previous, f)->Ok_0.len() == f,
    decreases f,
{
    lemma_figures_upto_ok(counts, previous, f);
    if g < f - 1 {
        lemma_figures_rows(counts, previous, f - 1, g);
    }
}

/// Law: the figures of a report hold together. In every folder, every cell
/// carries the same total, and that total is the sum of the folder's current
/// counts; a count changes only against a previous count that is not 0, and
/// then by exactly the current count minus the previous one. So a change in
/// percent never divides by 0.
pub proof fn law_figures_hold_together(
    counts: Seq<Vec<Option<Count>>>,
    previous: Seq<Seq<char>>,
    folder_count: int,
    figures: Seq<Seq<CellFigures>>,
    f: int,
)
    requires
        report_figures_spec(counts, previous, folder_count) == Ok::<Seq<Seq<CellFigures>>, Failure>(figures),
        0 <= f < folder_count,
    ensures
        figures[f].len() == counts.len(),
        forall|l: int| 0 <= l < counts.len() ==> (#[trigger] figures[f][l]).folder_total == sum_of_current(figures[f]),
        forall|l: int|
            0 <= l < counts.len() ==> ((#[trigger] figures[f][l]).difference != 0 ==> figures[f][l].previous != 0),
        forall|l: int|
            0 <= l < counts.len() && (#[trigger] figures[f][l]).previous != 0 ==> figures[f][l].difference
                == figures[f][l].current - figures[f][l].previous,
{
    lemma_figures_rows(counts, previous, folder_count, f);
    let n = counts.len() as int;
    let t = partial_total(counts, f, n)->Ok_0;
    let row = figures[f];
    assert(folder_cells(counts, previous, f, t, n) == Ok::<Seq<CellFigures>, Failure>(row));
    lemma_folder_cells_facts(counts, previous, f, t, n);
    lemma_partial_total_sum(counts, previous, f, t, n);
    assert(row.take(n) =~= row);
}

/// How one percentage of the report is worked out.
#[derive(Debug, Clone, Copy, PartialEq, Eq, Structural)]
pub enum Percent {
    /// `part` in percent of `whole`.
    Ratio { part: i64, whole: i64 },
    /// 0 %.
    Zero,
    /// 100 %.
    Hundred,
}

/// The share of a cell's current count in its folder's total: 0 % where the
/// total is not positive.
pub open spec fn share_of(c: CellFigures) -> Percent {
    if c.folder_total > 0 {
        Percent::Ratio { part: c.current, whole: c.folder_total }
    } else {
        Percent::Zero
    }
}

/// The change of a cell's count against the previous count: 100 % where the
/// count did not grow.
pub open spec fn change_of(c: CellFigures) -> Percent {
    if c.difference > 0 {
        Percent::Ratio { part: c.difference, whole: c.previous }
    } else {
        Percent::Hundred
    }
}

fn cell_percentages(c: &CellFigures) -> (r: (Percent, Percent))
    ensures
        r.0 == share_of(*c),
        r.1 == change_of(*c),
{
    let share = if c.folder_total > 0 {
        Percent::Ratio { part: c.current, whole: c.folder_total }
    } else {
        Percent::Zero
    };
    let change = if c.difference > 0 {
        Percent::Ratio { part: c.difference, whole: c.previous }
    } else {
        Percent::Hundred
    };
    (share, change)
}

/// The shares and the changes of all cells, indexed as the figures are.
pub fn percentages(figures: &Vec<Vec<CellFigures>>) -> (r: (Vec<Vec<Percent>>, Vec<Vec<Percent>>))
    ensures
        r.0@.len() == figures@.len(),
        r.1@.len() == figures@.len(),
        forall|f: int|
            0 <= f < figures@.len() ==> (#[trigger] r.0@[f])@.len() == figures@[f]@.len() && r.1@[f]@.len()
                == figures@[f]@.len() && (forall|l: int|
                0 <= l < figures@[f]@.len() ==> #[trigger] r.0@[f]@[l] == share_of(figures@[f]@[l])
                    && r.1@[f]@[l] == change_of(figures@[f]@[l])),
{
    let mut shares: Vec<Vec<Percent>> = Vec::new();
    let mut changes: Vec<Vec<Percent>> = Vec::new();
    let n = figures.len();
    let mut f: usize = 0;
    while f < n
        invariant
            n == figures@.len(),
            0 <= f <= n,
            shares@.len() == f,
            changes@.len() == f,
            forall|g: int|
                0 <= g < f ==> (#[trigger] shares@[g])@.len() == figures@[g]@.len() && changes@[g]@.len()
                    == figures@[g]@.len() && (forall|l: int|
                    0 <= l < figures@[g]@.len() ==> #[trigger] shares@[g]@[l] == share_of(figures@[g]@[l])
                        && changes@[g]@[l] == change_of(figures@[g]@[l])),
        decreases n - f,
    {
        let row = &figures[f];
        let m = row.len();
        let mut share_row: Vec<Percent> = Vec::new();
        let mut change_row: Vec<Percent> = Vec::new();
        let mut l: usize = 0;
        while l < m
            invariant
                m == row@.len(),
                0 <= l <= m,
                share_row@.len() == l,
                change_row@.len() == l,
                forall|k: int|
                    0 <= k < l ==> #[trigger] share_row@[k] == share_of(row@[k]) && change_row@[k]
                        == change_of(row@[k]),
            decreases m - l,
        {
            let (share, change) = cell_percentages(&row[l]);
            share_row.push(share);
            change_row.push(change);
            l = l + 1;
        }
        shares.push(share_row);
        changes.push(change_row);
        f = f + 1;
    }
    (shares, changes)
}

/// Law: no percentage of a report divides by 0: every ratio of the shares
/// and changes of worked-out figures has a whole that is not 0.
pub proof fn law_percentages_never_divide_by_zero(
    counts: Seq<Vec<Option<Count>>>,
    previous: Seq<Seq<char>>,
    folder_count: int,
    figures: Seq<Seq<CellFigures>>,
    f: int,
    l: int,
)
    requires
        report_figures_spec(counts, previous, folder_count) == Ok::<Seq<Seq<CellFigures>>, Failure>(figures),
        0 <= f < folder_count,
        0 <= l < counts.len(),
    ensures
        share_of(figures[f][l]) matches Percent::Ratio { whole, .. } ==> whole != 0,
        change_of(figures[f][l]) matches Percent::Ratio { whole, .. } ==> whole != 0,
{
    law_figures_hold_together(counts, previous, folder_count, figures, f);
    assert(figures[f][l].difference != 0 ==> figures[f][l].previous != 0);
}

/// Law: every cell is compared with the right field of the last entry. The
/// previous count of language `l` in folder `f` is the integer in field
/// `2 + 4 * f + 2 * l` of the last entry (two leading fields, then four per
/// folder and two per language), and its current count is the one read for
/// that language and folder.
pub proof fn law_figures_read_the_last_entry(
    counts: Seq<Vec<Option<Count>>>,
    previous: Seq<Seq<char>>,
    folder_count: int,
    figures: Seq<Seq<CellFigures>>,
    f: int,
    l: int,
)
    requires
        report_figures_spec(counts, previous, folder_count) == Ok::<Seq<Seq<CellFigures>>, Failure>(figures),
        0 <= f < folder_count,
        0 <= l < counts.len(),
    ensures
        2 + 4 * f + 2 * l < previous.len(),
        parsed_i64(previous[2 + 4 * f + 2 * l]) == Some(figures[f][l].previous),
        value_of(counts[l]@[f]) == Some(figures[f][l].current),
{
    lemma_figures_rows(counts, previous, folder_count, f);
    let n = counts.len() as int;
    let t = partial_total(counts, f, n)->Ok_0;
    assert(folder_cells(counts, previous, f, t, n) == Ok::<Seq<CellFigures>, Failure>(figures[f]));
    lemma_folder_cells_facts(counts, previous, f, t, n);
    lemma_partial_total_values(counts, f, n, l);
    assert(figures[f][l].previous == figures[f][l].previous);
}

/// The sum of the parts of the ratios among `shares` (0 % and 100 % add
/// nothing).
pub open spec fn sum_of_parts(shares: Seq<Percent>) -> int
    decreases shares.len(),
{
    if shares.len() == 0 {
        0
    } else {
        sum_of_parts(shares.drop_last()) + match shares.last() {
            Percent::Ratio { part, .. } => part as int,
            _ => 0int,
        }
    }
}

/// The shares of `cells`, in order.
pub open spec fn shares_of(cells: Seq<CellFigures>) -> Seq<Percent> {
    cells.map_values(|c: CellFigures| share_of(c))
}

proof fn lemma_parts_of_shares(cells: Seq<CellFigures>)
    requires
        forall|l: int| 0 <= l < cells.len() ==> (#[trigger] cells[l]).folder_total > 0,
    ensures
        sum_of_parts(shares_of(cells)) == sum_of_current(cells),
    decreases cells.len(),
{
    if cells.len() > 0 {
        lemma_parts_of_shares(cells.drop_last());
        assert(shares_of(cells).drop_last() =~= shares_of(cells.drop_last()));
        assert(cells.last().folder_total > 0);
    }
}

/// Law: the shares of a folder that holds files add up to the whole. Each
/// cell's share is a ratio whose whole is the sum of the parts of all the
/// folder's shares, which is the sum of the folder's current counts.
pub proof fn law_shares_add_up_to_the_folder(
    counts: Seq<Vec<Option<Count>>>,
    previous: Seq<Seq<char>>,
    folder_count: int,
    figures: Seq<Seq<CellFigures>>,
    f: int,
)
    requires
        report_figures_spec(counts, previous, folder_count) == Ok::<Seq<Seq<CellFigures>>, Failure>(figures),
        0 <= f < folder_count,
        sum_of_current(figures[f]) > 0,
    ensures
        sum_of_parts(shares_of(figures[f])) == sum_of_current(figures[f]),
        forall|l: int|
            0 <= l < counts.len() ==> (#[trigger] shares_of(figures[f])[l]) is Ratio && shares_of(
                figures[f],
            )[l]->whole == sum_of_parts(shares_of(figures[f])),
{
    law_figures_hold_together(counts, previous, folder_count, figures, f);
    lemma_parts_of_shares(figures[f]);
}

/// Law: the shares of a folder split its files. Where the folder holds files
/// (the sum of its current counts is positive), each cell's share is its
/// current count out of that sum; otherwise every share is 0 %. A count that
/// grew changes by its growth out of the previous count; any other by 100 %.
pub proof fn law_shares_split_the_folder(
    counts: Seq<Vec<Option<Count>>>,
    previous: Seq<Seq<char>>,
    folder_count: int,
    figures: Seq<Seq<CellFigures>>,
    f: int,
    l: int,
)
    requires
        report_figures_spec(counts, previous, folder_count) == Ok::<Seq<Seq<CellFigures>>, Failure>(figures),
        0 <= f < folder_count,
        0 <= l < counts.len(),
    ensures
        sum_of_current(figures[f]) > 0 ==> share_of(figures[f][l]) == (Percent::Ratio {
            part: figures[f][l].current,
            whole: figures[f][l].folder_total,
        }) && figures[f][l].folder_total == sum_of_current(figures[f]),
        sum_of_current(figures[f]) <= 0 ==> share_of(figures[f][l]) == Percent::Zero,
        figures[f][l].current > figures[f][l].previous && figures[f][l].previous != 0 ==> change_of(
            figures[f][l],
        ) == (Percent::Ratio {
            part: (figures[f][l].current - figures[f][l].previous) as i64,
            whole: figures[f][l].previous,
        }),
        figures[f][l].current <= figures[f][l].previous || figures[f][l].previous == 0 ==> change_of(
            figures[f][l],
        ) == Percent::Hundred,
{
    law_figures_hold_together(counts, previous, folder_count, figures, f);
    assert(figures[f][l].folder_total == sum_of_current(figures[f]));
    lemma_figures_rows(counts, previous, folder_count, f);
    let n = counts.len() as int;
    let t = partial_total(counts, f, n)->Ok_0;
    assert(folder_cells(counts, previous, f, t, n) == Ok::<Seq<CellFigures>, Failure>(figures[f]));
    lemma_folder_cells_facts(counts, previous, f, t, n);
    assert(figures[f][l].previous == 0 ==> figures[f][l].difference == 0);
}

/// The number of commas in `s`.
pub open spec fn comma_count(s: Seq<char>) -> nat
    decreases s.len(),
{
    if s.len() == 0 {
        0
    } else {
        comma_count(s.drop_last()) + if s.last() == ',' {
            1nat
        } else {
            0nat
        }
    }
}

proof fn lemma_comma_count_add(a: Seq<char>, b: Seq<char>)
    ensures
        comma_count(a + b) == comma_count(a) + comma_count(b),
    decreases b.len(),
{
    if b.len() == 0 {
        assert(a + b =~= a);
    } else {
        lemma_comma_count_add(a, b.drop_last());
        assert((a + b).drop_last() =~= a + b.drop_last());
    }
}

proof fn lemma_literal_commas()
    ensures
        comma_count(","@) == 1,
        comma_count(",,"@) == 2,
        comma_count("Language Count,,"@) == 2,
        comma_count(Seq::<char>::empty()) == 0,
{
    reveal_strlit(",");
    reveal_strlit(",,");
    reveal_strlit("Language Count,,");
    let l = "Language Count,,"@;
    assert(l.drop_last().drop_last() =~= "Language Count"@) by {
        reveal_strlit("Language Count");
    }
    assert(comma_count("Language Count"@) == 0) by {
        reveal_strlit("Language Count");
        let t = "Language Count"@;
        assert forall|k: int| 0 <= k <= t.len() implies comma_count(#[trigger] t.take(k)) == 0 by {
            lemma_no_comma_prefix(t, k);
        }
        assert(t.take(t.len() as int) =~= t);
    }
    assert(","@ =~= seq![',']);
    assert(",,"@ =~= seq![',', ',']);
    let one = seq![','];
    let two = seq![',', ','];
    assert(comma_count(Seq::<char>::empty()) == 0);
    assert(one.drop_last() =~= Seq::<char>::empty());
    assert(one.last() == ',');
    assert(comma_count(one) == comma_count(one.drop_last()) + 1);
    assert(two.drop_last() =~= one);
    assert(two.last() == ',');
    assert(comma_count(two) == comma_count(two.drop_last()) + 1);
    assert(l.last() == ',');
    assert(l.drop_last().last() == ',');
    assert(comma_count(l) == comma_count(l.drop_last()) + 1);
    assert(comma_count(l.drop_last()) == comma_count(l.drop_last().drop_last()) + 1);
}

proof fn lemma_no_comma_prefix(t: Seq<char>, k: int)
    requires
        0 <= k <= t.len(),
        forall|i: int| 0 <= i < t.len() ==> t[i] != ',',
    ensures
        comma_count(t.take(k)) == 0,
    decreases k,
{
    if k > 0 {
        lemma_no_comma_prefix(t, k - 1);
        assert(t.take(k).drop_last() =~= t.take(k - 1));
    } else {
        assert(t.take(0) =~= Seq::<char>::empty());
    }
}

/// No commas in `s`.
pub open spec fn comma_free(s: Seq<char>) -> bool {
    forall|i: int| 0 <= i < s.len() ==> s[i] != ','
}

proof fn lemma_comma_free_count(s: Seq<char>)
    requires
        comma_free(s),
    ensures
        comma_count(s) == 0,
{
    lemma_no_comma_prefix(s, s.len() as int);
    assert(s.take(s.len() as int) =~= s);
}

proof fn lemma_natural_text_comma_free(n: nat)
    ensures
        comma_free(crate::text::natural_text(n)),
    decreases n,
{
    if n >= 10 {
        lemma_natural_text_comma_free(n / 10);
    }
}

proof fn lemma_integer_text_comma_free(n: int)
    ensures
        comma_free(integer_text(n)),
{
    if n < 0 {
        lemma_natural_text_comma_free((-n) as nat);
    } else {
        lemma_natural_text_comma_free(n as nat);
    }
}

/// What every cell of a row contributes in commas: two, and one for the last cell.
spec fn cell_commas(f: int, l: int, nf: int, nl: int) -> int {
    if is_last_cell(f, l, nf, nl) {
        1
    } else {
        2
    }
}

proof fn lemma_cells_commas(nf: int, nl: int, cell: spec_fn(int, int) -> Seq<char>, f: int, l: int)
    requires
        0 <= f < nf,
        0 <= l <= nl,
        nl >= 1,
        forall|g: int, k: int|
            0 <= g < nf && 0 <= k < nl ==> comma_count(#[trigger] cell(g, k)) == cell_commas(g, k, nf, nl),
    ensures
        comma_count(concat(cells_of(nl, cell, f).take(l))) == 2 * l - (if f == nf - 1 && l == nl {
            1int
        } else {
            0int
        }),
    decreases l,
{
    let cs = cells_of(nl, cell, f);
    if l > 0 {
        lemma_cells_commas(nf, nl, cell, f, l - 1);
        lemma_concat_push(cs, l - 1);
        lemma_comma_count_add(concat(cs.take(l - 1)), cs[l - 1]);
        assert(cs[l - 1] == cell(f, l - 1));
        assert(comma_count(cell(f, l - 1)) == cell_commas(f, l - 1, nf, nl));
        assert(comma_count(concat(cs.take(l))) == comma_count(concat(cs.take(l - 1))) + comma_count(cell(f, l - 1)));
    } else {
        assert(concat(cs.take(0)) =~= Seq::<char>::empty());
        assert(cs.take(0) =~= Seq::<Seq<char>>::empty());
    }
}

proof fn lemma_grid_commas(
    nf: int,
    nl: int,
    lead: spec_fn(int) -> Seq<char>,
    cell: spec_fn(int, int) -> Seq<char>,
    f: int,
)
    requires
        nl >= 1,
        0 <= f <= nf,
        forall|g: int| 0 <= g < nf ==> comma_count(#[trigger] lead(g)) == 0,
        forall|g: int, k: int|
            0 <= g < nf && 0 <= k < nl ==> comma_count(#[trigger] cell(g, k)) == cell_commas(g, k, nf, nl),
    ensures
        comma_count(concat(folder_texts(nf, nl, lead, cell).take(f))) == 2 * nl * f - (if f == nf && f > 0 {
            1int
        } else {
            0int
        }),
    decreases f,
{
    let outer = folder_texts(nf, nl, lead, cell);
    if f > 0 {
        lemma_grid_commas(nf, nl, lead, cell, f - 1);
        lemma_concat_push(outer, f - 1);
        lemma_comma_count_add(concat(outer.take(f - 1)), outer[f - 1]);
        lemma_comma_count_add(lead(f - 1), concat(cells_of(nl, cell, f - 1)));
        lemma_cells_commas(nf, nl, cell, f - 1, nl);
        assert(cells_of(nl, cell, f - 1).take(nl) =~= cells_of(nl, cell, f - 1));
        assert(2 * nl * f == 2 * nl * (f - 1) + 2 * nl) by (nonlinear_arith);
    } else {
        assert(outer.take(0) =~= Seq::<Seq<char>>::empty());
    }
}

proof fn lemma_grid_text_commas(
    nf: int,
    nl: int,
    lead: spec_fn(int) -> Seq<char>,
    cell: spec_fn(int, int) -> Seq<char>,
)
    requires
        nl >= 1,
        nf >= 1,
        forall|g: int| 0 <= g < nf ==> comma_count(#[trigger] lead(g)) == 0,
        forall|g: int, k: int|
            0 <= g < nf && 0 <= k < nl ==> comma_count(#[trigger] cell(g, k)) == cell_commas(g, k, nf, nl),
    ensures
        comma_count(grid_text(nf, nl, lead, cell)) == 2 * nl * nf - 1,
{
    lemma_grid_commas(nf, nl, lead, cell, nf);
    lemma_grid_end(nf, nl, lead, cell);
}

proof fn lemma_separator_commas(f: int, l: int, nf: int, nl: int)
    ensures
        comma_count(separator(is_last_cell(f, l, nf, nl))) == cell_commas(f, l, nf, nl),
{
    lemma_literal_commas();
}

proof fn lemma_field_then_separator(field: Seq<char>, f: int, l: int, nf: int, nl: int)
    requires
        comma_free(field),
    ensures
        comma_count(field + separator(is_last_cell(f, l, nf, nl))) == cell_commas(f, l, nf, nl),
{
    lemma_comma_free_count(field);
    lemma_separator_commas(f, l, nf, nl);
    lemma_comma_count_add(field, separator(is_last_cell(f, l, nf, nl)));
}

/// Law: the six rows of a report have the same number of fields, `2 + 2 *
/// folders * languages` (as many commas as that, less one), wherever the texts
/// that fill them hold no comma: the folder and language names, the fields of
/// the last entry, the version, the date, the counts, the shares and the changes.
pub proof fn law_rows_have_equal_field_counts(
    folders: Seq<Seq<char>>,
    names: Seq<Seq<char>>,
    previous: Seq<Seq<char>>,
    version: Seq<char>,
    date: Seq<char>,
    counts: Seq<Vec<Option<Count>>>,
    figures: Seq<Vec<CellFigures>>,
    shares: Seq<Vec<String>>,
    changes: Seq<Vec<String>>,
)
    requires
        folders.len() >= 1,
        names.len() >= 1,
        rows_inputs_fit(folders.len() as int, names.len() as int, previous, counts, figures, shares, changes),
        forall|f: int| 0 <= f < folders.len() ==> comma_free(#[trigger] folders[f]),
        forall|l: int| 0 <= l < names.len() ==> comma_free(#[trigger] names[l]),
        forall|i: int| 0 <= i < previous.len() ==> comma_free(#[trigger] previous[i]),
        comma_free(version),
        comma_free(date),
        forall|f: int, l: int|
            0 <= f < folders.len() && 0 <= l < names.len() ==> comma_free(#[trigger] count_text(counts, f, l)),
        forall|f: int, l: int|
            0 <= f < folders.len() && 0 <= l < names.len() ==> comma_free(#[trigger] table_text(shares, f, l)),
        forall|f: int, l: int|
            0 <= f < folders.len() && 0 <= l < names.len() ==> comma_free(#[trigger] table_text(changes, f, l)),
    ensures
        ({
            let (nf, nl) = (folders.len() as int, names.len() as int);
            let n = 2 * nf * nl + 1;
            &&& comma_count(folder_header_text(folders, nl)) == n
            &&& comma_count(language_header_text(nf, names)) == n
            &&& comma_count(previous_row_text(nf, nl, previous)) == n
            &&& comma_count(current_row_text(nf, nl, version, date, counts, shares)) == n
            &&& comma_count(difference_row_text(nf, nl, figures)) == n
            &&& comma_count(change_row_text(nf, nl, changes)) == n
        }),
{
    let (nf, nl) = (folders.len() as int, names.len() as int);
    lemma_literal_commas();
    assert(2 * nl * nf == 2 * nf * nl) by (nonlinear_arith);
    reveal_strlit(",");
    reveal_strlit(",,");
    // folder header
    assert forall|g: int| 0 <= g < nf implies comma_count(#[trigger] folder_lead(folders)(g)) == 0 by {
        lemma_comma_free_count(folders[g]);
    }
    assert forall|g: int, k: int| 0 <= g < nf && 0 <= k < nl implies comma_count(
        #[trigger] separator_cells(nf, nl)(g, k),
    ) == cell_commas(g, k, nf, nl) by {
        lemma_separator_commas(g, k, nf, nl);
    }
    lemma_grid_text_commas(nf, nl, folder_lead(folders), separator_cells(nf, nl));
    lemma_comma_count_add("Language Count,,"@, grid_text(nf, nl, folder_lead(folders), separator_cells(nf, nl)));
    // no lead
    assert forall|g: int| 0 <= g < nf implies comma_count(#[trigger] no_lead()(g)) == 0 by {}
    // language header
    assert forall|g: int, k: int| 0 <= g < nf && 0 <= k < nl implies comma_count(
        #[trigger] name_cells(nf, names)(g, k),
    ) == cell_commas(g, k, nf, nl) by {
        lemma_field_then_separator(names[k], g, k, nf, nl);
    }
    lemma_grid_text_commas(nf, nl, no_lead(), name_cells(nf, names));
    lemma_comma_count_add(",,"@, grid_text(nf, nl, no_lead(), name_cells(nf, names)));
    // previous row
    assert forall|g: int, k: int| 0 <= g < nf && 0 <= k < nl implies comma_count(
        #[trigger] previous_cells(nf, nl, previous)(g, k),
    ) == cell_commas(g, k, nf, nl) by {
        assert(previous_position(g, k) < previous.len());
        lemma_field_then_separator(previous[previous_position(g, k)], g, k, nf, nl);
    }
    lemma_grid_text_commas(nf, nl, no_lead(), previous_cells(nf, nl, previous));
    let pg = grid_text(nf, nl, no_lead(), previous_cells(nf, nl, previous));
    lemma_comma_free_count(previous[0]);
    lemma_comma_free_count(previous[1]);
    lemma_comma_count_add(previous[0], ","@);
    lemma_comma_count_add(previous[0] + ","@, previous[1]);
    lemma_comma_count_add(previous[0] + ","@ + previous[1], ","@);
    lemma_comma_count_add(previous[0] + ","@ + previous[1] + ","@, pg);
    // current row
    assert forall|g: int, k: int| 0 <= g < nf && 0 <= k < nl implies comma_count(
        #[trigger] current_cells(nf, nl, counts, shares)(g, k),
    ) == cell_commas(g, k, nf, nl) by {
        let ct = count_text(counts, g, k);
        let sh = table_text(shares, g, k);
        let tail = if is_last_cell(g, k, nf, nl) {
            Seq::<char>::empty()
        } else {
            ","@
        };
        lemma_comma_free_count(ct);
        lemma_comma_free_count(sh);
        lemma_comma_count_add(ct, ","@);
        lemma_comma_count_add(ct + ","@, sh);
        lemma_comma_count_add(ct + ","@ + sh, tail);
    }
    lemma_grid_text_commas(nf, nl, no_lead(), current_cells(nf, nl, counts, shares));
    let cg = grid_text(nf, nl, no_lead(), current_cells(nf, nl, counts, shares));
    lemma_comma_free_count(version);
    lemma_comma_free_count(date);
    lemma_comma_count_add(version, ","@);
    lemma_comma_count_add(version + ","@, date);
    lemma_comma_count_add(version + ","@ + date, ","@);
    lemma_comma_count_add(version + ","@ + date + ","@, cg);
    // difference row
    assert forall|g: int, k: int| 0 <= g < nf && 0 <= k < nl implies comma_count(
        #[trigger] difference_cells(nf, nl, figures)(g, k),
    ) == cell_commas(g, k, nf, nl) by {
        lemma_integer_text_comma_free(figures[g]@[k].difference as int);
        lemma_field_then_separator(integer_text(figures[g]@[k].difference as int), g, k, nf, nl);
    }
    lemma_grid_text_commas(nf, nl, no_lead(), difference_cells(nf, nl, figures));
    lemma_comma_count_add(",,"@, grid_text(nf, nl, no_lead(), difference_cells(nf, nl, figures)));
    // change row
    assert forall|g: int, k: int| 0 <= g < nf && 0 <= k < nl implies comma_count(
        #[trigger] change_cells(nf, nl, changes)(g, k),
    ) == cell_commas(g, k, nf, nl) by {
        lemma_field_then_separator(table_text(changes, g, k), g, k, nf, nl);
    }
    lemma_grid_text_commas(nf, nl, no_lead(), change_cells(nf, nl, changes));
    lemma_comma_count_add(",,"@, grid_text(nf, nl, no_lead(), change_cells(nf, nl, changes)));
}

/// Whether `s` is empty or ends with a comma, so that a field starts right after it.
pub open spec fn ends_field(s: Seq<char>) -> bool {
    s.len() == 0 || s.last() == ','
}

proof fn lemma_one_char_commas(c: char)
    ensures
        comma_count(seq![c]) == (if c == ',' {
            1nat
        } else {
            0nat
        }),
{
    let one = seq![c];
    assert(one.drop_last() =~= Seq::<char>::empty());
    assert(comma_count(Seq::<char>::empty()) == 0);
    assert(one.last() == c);
    assert(comma_count(one) == comma_count(one.drop_last()) + (if one.last() == ',' {
        1nat
    } else {
        0nat
    }));
}

proof fn lemma_split_first_field(a: Seq<char>, r: Seq<char>)
    requires
        comma_free(a),
        r.len() == 0 || r[0] == ',',
    ensures
        split_spec(a + r, ',').len() >= 1,
        split_spec(a + r, ',')[0] == a,
    decreases a.len(),
{
    lemma_split_len(a + r, ',');
    if a.len() == 0 {
        assert(a + r =~= r);
    } else {
        let b = a.drop_first();
        assert((a + r).drop_first() =~= b + r);
        assert((a + r)[0] == a[0]);
        lemma_split_first_field(b, r);
        assert(seq![a[0]] + b =~= a);
    }
}

/// Where `p` ends where a field starts, `a` holds no comma and `r` is empty or
/// starts with a comma, the field of `p + a + r` after the commas of `p` is `a`.
proof fn lemma_split_field(p: Seq<char>, a: Seq<char>, r: Seq<char>)
    requires
        ends_field(p),
        comma_free(a),
        r.len() == 0 || r[0] == ',',
    ensures
        comma_count(p) < split_spec(p + a + r, ',').len(),
        split_spec(p + a + r, ',')[comma_count(p) as int] == a,
    decreases p.len(),
{
    let s = p + a + r;
    if p.len() == 0 {
        assert(s =~= a + r);
        lemma_split_first_field(a, r);
    } else {
        let q = p.drop_first();
        assert(s.drop_first() =~= q + a + r);
        assert(s[0] == p[0]);
        assert(p =~= seq![p[0]] + q);
        lemma_comma_count_add(seq![p[0]], q);
        lemma_one_char_commas(p[0]);
        if q.len() > 0 {
            assert(q.last() == p.last());
        }
        lemma_split_field(q, a, r);
        lemma_split_len(q + a + r, ',');
        if p[0] != ',' {
            assert(q.len() > 0);
            assert(comma_count(q) == comma_count(q.drop_last()) + 1);
        }
    }
}

proof fn lemma_concat_split(parts: Seq<Seq<char>>, i: int)
    requires
        0 <= i <= parts.len(),
    ensures
        concat(parts) == concat(parts.take(i)) + concat(parts.skip(i)),
    decreases parts.len(),
{
    if i == parts.len() {
        assert(parts.take(i) =~= parts);
        assert(parts.skip(i) =~= Seq::<Seq<char>>::empty());
        assert(concat(parts) + Seq::<char>::empty() =~= concat(parts));
    } else {
        let d = parts.drop_last();
        lemma_concat_split(d, i);
        assert(d.take(i) =~= parts.take(i));
        assert(parts.skip(i).drop_last() =~= d.skip(i));
        assert(parts.skip(i).last() == parts.last());
        assert(concat(parts) =~= concat(parts.take(i)) + concat(parts.skip(i)));
    }
}

proof fn lemma_concat_first(parts: Seq<Seq<char>>)
    requires
        parts.len() >= 1,
    ensures
        concat(parts) == parts[0] + concat(parts.skip(1)),
{
    lemma_concat_split(parts, 1);
    let t = parts.take(1);
    assert(t.drop_last() =~= Seq::<Seq<char>>::empty());
    assert(concat(Seq::<Seq<char>>::empty()) == Seq::<char>::empty());
    assert(t.last() == parts[0]);
    assert(concat(t) == concat(t.drop_last()) + t.last());
    assert(concat(t) =~= parts[0]);
}

/// A grid's text around cell `(f, l)`: what comes before it, the cell, and what follows.
proof fn lemma_grid_split(
    nf: int,
    nl: int,
    lead: spec_fn(int) -> Seq<char>,
    cell: spec_fn(int, int) -> Seq<char>,
    f: int,
    l: int,
)
    requires
        0 <= f < nf,
        0 <= l < nl,
    ensures
        grid_text(nf, nl, lead, cell) == concat(folder_texts(nf, nl, lead, cell).take(f)) + lead(f)
            + concat(cells_of(nl, cell, f).take(l)) + cell(f, l) + (concat(
            cells_of(nl, cell, f).skip(l + 1),
        ) + concat(folder_texts(nf, nl, lead, cell).skip(f + 1))),
        is_last_cell(f, l, nf, nl) ==> concat(cells_of(nl, cell, f).skip(l + 1)) + concat(
            folder_texts(nf, nl, lead, cell).skip(f + 1),
        ) == Seq::<char>::empty(),
{
    let outer = folder_texts(nf, nl, lead, cell);
    let cs = cells_of(nl, cell, f);
    lemma_concat_split(outer, f);
    lemma_concat_first(outer.skip(f));
    assert(outer.skip(f).skip(1) =~= outer.skip(f + 1));
    assert(outer.skip(f)[0] == outer[f]);
    lemma_concat_split(cs, l);
    lemma_concat_first(cs.skip(l));
    assert(cs.skip(l).skip(1) =~= cs.skip(l + 1));
    assert(cs.skip(l)[0] == cell(f, l));
    assert(outer[f] == lead(f) + concat(cs));
    assert(grid_text(nf, nl, lead, cell) =~= concat(outer.take(f)) + lead(f) + concat(cs.take(l))
        + cell(f, l) + (concat(cs.skip(l + 1)) + concat(outer.skip(f + 1))));
    if is_last_cell(f, l, nf, nl) {
        assert(cs.skip(l + 1) =~= Seq::<Seq<char>>::empty());
        assert(outer.skip(f + 1) =~= Seq::<Seq<char>>::empty());
        assert(concat(cs.skip(l + 1)) + concat(outer.skip(f + 1)) =~= Seq::<char>::empty());
    }
}

/// Before a cell of a grid whose cells but the last end with a comma, a field starts.
proof fn lemma_grid_prefix_ends(
    nf: int,
    nl: int,
    lead: spec_fn(int) -> Seq<char>,
    cell: spec_fn(int, int) -> Seq<char>,
    f: int,
    l: int,
)
    requires
        0 <= f < nf,
        0 <= l < nl,
        forall|g: int, k: int|
            0 <= g < nf && 0 <= k < nl && !is_last_cell(g, k, nf, nl) ==> ends_field(#[trigger] cell(g, k))
                && cell(g, k).len() > 0,
    ensures
        ends_field(concat(folder_texts(nf, nl, lead, cell).take(f))),
        l > 0 ==> concat(cells_of(nl, cell, f).take(l)).len() > 0 && ends_field(
            concat(cells_of(nl, cell, f).take(l)),
        ),
{
    let outer = folder_texts(nf, nl, lead, cell);
    let cs = cells_of(nl, cell, f);
    if l > 0 {
        lemma_concat_push(cs, l - 1);
        assert(cs[l - 1] == cell(f, l - 1));
        assert(!is_last_cell(f, l - 1, nf, nl));
    }
    if f > 0 {
        let ps = cells_of(nl, cell, f - 1);
        lemma_concat_push(outer, f - 1);
        lemma_concat_push(ps, nl - 1);
        assert(ps.take(nl) =~= ps);
        assert(ps[nl - 1] == cell(f - 1, nl - 1));
        assert(!is_last_cell(f - 1, nl - 1, nf, nl));
        assert(outer[f - 1] == lead(f - 1) + concat(ps));
    } else {
        assert(outer.take(0) =~= Seq::<Seq<char>>::empty());
    }
}

/// The field of a row (its leading text `head`, then a grid without leads)
/// that cell `(f, l)` holds after its own leading part `x`: the row cut at
/// commas has it at `commas(head) + 2 * (f * nl + l) + commas(x)`.
proof fn lemma_row_field(
    head: Seq<char>,
    nf: int,
    nl: int,
    cell: spec_fn(int, int) -> Seq<char>,
    f: int,
    l: int,
    x: Seq<char>,
    a: Seq<char>,
    r: Seq<char>,
)
    requires
        0 <= f < nf,
        0 <= l < nl,
        head.len() > 0 && head.last() == ',',
        forall|g: int, k: int|
            0 <= g < nf && 0 <= k < nl ==> comma_count(#[trigger] cell(g, k)) == cell_commas(g, k, nf, nl),
        forall|g: int, k: int|
            0 <= g < nf && 0 <= k < nl && !is_last_cell(g, k, nf, nl) ==> ends_field(#[trigger] cell(g, k))
                && cell(g, k).len() > 0,
        cell(f, l) == x + a + r,
        ends_field(x),
        comma_free(a),
        (r.len() > 0 && r[0] == ',') || (r.len() == 0 && is_last_cell(f, l, nf, nl)),
    ensures
        comma_count(head) + 2 * (f * nl + l) + comma_count(x) < split_spec(
            head + grid_text(nf, nl, no_lead(), cell),
            ',',
        ).len(),
        split_spec(head + grid_text(nf, nl, no_lead(), cell), ',')[comma_count(head) + 2 * (f * nl + l)
            + comma_count(x)] == a,
{
    let lead = no_lead();
    let outer = folder_texts(nf, nl, lead, cell);
    let cs = cells_of(nl, cell, f);
    let before = concat(outer.take(f)) + lead(f) + concat(cs.take(l));
    let after = concat(cs.skip(l + 1)) + concat(outer.skip(f + 1));
    lemma_grid_split(nf, nl, lead, cell, f, l);
    lemma_grid_prefix_ends(nf, nl, lead, cell, f, l);
    assert forall|g: int| 0 <= g < nf implies comma_count(#[trigger] lead(g)) == 0 by {}
    lemma_grid_commas(nf, nl, lead, cell, f);
    lemma_cells_commas(nf, nl, cell, f, l);
    assert(lead(f) =~= Seq::<char>::empty());
    assert(before =~= concat(outer.take(f)) + concat(cs.take(l)));
    lemma_comma_count_add(concat(outer.take(f)), concat(cs.take(l)));
    let p = head + before + x;
    lemma_comma_count_add(head, before);
    lemma_comma_count_add(head + before, x);
    assert(2 * nl * f + 2 * l == 2 * (f * nl + l)) by (nonlinear_arith);
    // a field starts at the end of p
    if x.len() > 0 {
        assert(p.last() == x.last());
    } else if before.len() > 0 {
        assert(p =~= head + before);
        if l > 0 {
            assert(before.last() == concat(cs.take(l)).last());
        } else {
            assert(concat(cs.take(l)) =~= Seq::<char>::empty()) by {
                assert(cs.take(0) =~= Seq::<Seq<char>>::empty());
            }
            assert(before =~= concat(outer.take(f)));
        }
        assert(p.last() == before.last());
    } else {
        assert(p =~= head);
    }
    let rest = r + after;
    if r.len() == 0 {
        assert(rest =~= Seq::<char>::empty());
    } else {
        assert(rest[0] == r[0]);
    }
    assert(head + grid_text(nf, nl, lead, cell) =~= p + a + rest);
    lemma_split_field(p, a, rest);
}

proof fn lemma_separator_shape(a: Seq<char>, f: int, l: int, nf: int, nl: int)
    ensures
        separator(is_last_cell(f, l, nf, nl)).len() > 0,
        separator(is_last_cell(f, l, nf, nl))[0] == ',',
        ends_field(a + separator(is_last_cell(f, l, nf, nl))),
        (a + separator(is_last_cell(f, l, nf, nl))).len() > 0,
{
    reveal_strlit(",");
    reveal_strlit(",,");
    let t = a + separator(is_last_cell(f, l, nf, nl));
    assert(t.last() == separator(is_last_cell(f, l, nf, nl)).last());
}

/// Law: every figure stands in its own column. Cut at commas, the folder
/// header holds folder `f` in field `2 + 2 * f * nl`, where its columns start,
/// and each row of the report holds in field `2 + 2 * (f * nl + l)` what
/// belongs to language `l` in folder `f`: its name, its previous count (field `2 + 4 * f + 2 * l`
/// of the last entry), its current count (with its share of the folder in the
/// next field), its difference and its change; the first two fields of the
/// previous row are those of the last entry, those of the current row are the
/// version and the date. This holds wherever the texts that fill the rows hold
/// no comma.
pub proof fn law_each_figure_in_its_column(
    folders: Seq<Seq<char>>,
    names: Seq<Seq<char>>,
    previous: Seq<Seq<char>>,
    version: Seq<char>,
    date: Seq<char>,
    counts: Seq<Vec<Option<Count>>>,
    figures: Seq<Vec<CellFigures>>,
    shares: Seq<Vec<String>>,
    changes: Seq<Vec<String>>,
    f: int,
    l: int,
)
    requires
        0 <= f < folders.len(),
        0 <= l < names.len(),
        rows_inputs_fit(folders.len() as int, names.len() as int, previous, counts, figures, shares, changes),
        forall|f: int| 0 <= f < folders.len() ==> comma_free(#[trigger] folders[f]),
        forall|l: int| 0 <= l < names.len() ==> comma_free(#[trigger] names[l]),
        forall|i: int| 0 <= i < previous.len() ==> comma_free(#[trigger] previous[i]),
        comma_free(version),
        comma_free(date),
        forall|f: int, l: int|
            0 <= f < folders.len() && 0 <= l < names.len() ==> comma_free(#[trigger] count_text(counts, f, l)),
        forall|f: int, l: int|
            0 <= f < folders.len() && 0 <= l < names.len() ==> comma_free(#[trigger] table_text(shares, f, l)),
        forall|f: int, l: int|
            0 <= f < folders.len() && 0 <= l < names.len() ==> comma_free(#[trigger] table_text(changes, f, l)),
    ensures
        ({
            let (nf, nl) = (folders.len() as int, names.len() as int);
            let k = 2 + 2 * (f * nl + l);
            let folder_fields = split_spec(folder_header_text(folders, nl), ',');
            let language_fields = split_spec(language_header_text(nf, names), ',');
            let previous_fields = split_spec(previous_row_text(nf, nl, previous), ',');
            let current_fields = split_spec(
                current_row_text(nf, nl, version, date, counts, shares),
                ',',
            );
            let difference_fields = split_spec(difference_row_text(nf, nl, figures), ',');
            let change_fields = split_spec(change_row_text(nf, nl, changes), ',');
            &&& 2 + 2 * (f * nl) < folder_fields.len() && folder_fields[2 + 2 * (f * nl)] == folders[f]
            &&& k < language_fields.len() && language_fields[k] == names[l]
            &&& k < previous_fields.len() && previous_fields[k] == previous[2 + 4 * f + 2 * l]
            &&& previous_fields[0] == previous[0] && previous_fields[1] == previous[1]
            &&& k + 1 < current_fields.len() && current_fields[k] == count_text(counts, f, l)
                && current_fields[k + 1] == table_text(shares, f, l)
            &&& current_fields[0] == version && current_fields[1] == date
            &&& k < difference_fields.len() && difference_fields[k] == integer_text(
                figures[f]@[l].difference as int,
            )
            &&& k < change_fields.len() && change_fields[k] == table_text(changes, f, l)
        }),
{
    let (nf, nl) = (folders.len() as int, names.len() as int);
    lemma_literal_commas();
    reveal_strlit(",");
    reveal_strlit(",,");
    let two = ",,"@;
    assert(two.last() == ',');
    // folder header
    let fl = folder_lead(folders);
    let sc = separator_cells(nf, nl);
    assert forall|g: int| 0 <= g < nf implies comma_count(#[trigger] fl(g)) == 0 by {
        lemma_comma_free_count(folders[g]);
    }
    assert forall|g: int, j: int| 0 <= g < nf && 0 <= j < nl implies comma_count(#[trigger] sc(g, j))
        == cell_commas(g, j, nf, nl) && ends_field(sc(g, j)) && sc(g, j).len() > 0 by {
        lemma_separator_commas(g, j, nf, nl);
        lemma_separator_shape(Seq::<char>::empty(), g, j, nf, nl);
        assert(Seq::<char>::empty() + separator(is_last_cell(g, j, nf, nl)) =~= sc(g, j));
    }
    lemma_grid_split(nf, nl, fl, sc, f, 0);
    lemma_grid_prefix_ends(nf, nl, fl, sc, f, 0);
    lemma_grid_commas(nf, nl, fl, sc, f);
    lemma_separator_shape(Seq::<char>::empty(), f, 0, nf, nl);
    let outer = folder_texts(nf, nl, fl, sc);
    let fcs = cells_of(nl, sc, f);
    let fp = "Language Count,,"@ + concat(outer.take(f));
    let frest = sc(f, 0) + (concat(fcs.skip(1)) + concat(outer.skip(f + 1)));
    assert(fcs.take(0) =~= Seq::<Seq<char>>::empty());
    assert(concat(fcs.take(0)) =~= Seq::<char>::empty());
    assert(folder_header_text(folders, nl) =~= fp + folders[f] + frest);
    assert(frest[0] == ',') by {
        assert(sc(f, 0) =~= separator(is_last_cell(f, 0, nf, nl)));
    }
    lemma_comma_count_add("Language Count,,"@, concat(outer.take(f)));
    reveal_strlit("Language Count,,");
    if concat(outer.take(f)).len() > 0 {
        assert(fp.last() == concat(outer.take(f)).last());
    } else {
        assert(fp =~= "Language Count,,"@);
    }
    assert(2 * nl * f == 2 * (f * nl)) by (nonlinear_arith);
    lemma_split_field(fp, folders[f], frest);
    // language header
    let nc = name_cells(nf, names);
    assert forall|g: int, j: int| 0 <= g < nf && 0 <= j < nl implies comma_count(#[trigger] nc(g, j))
        == cell_commas(g, j, nf, nl) && ends_field(nc(g, j)) && nc(g, j).len() > 0 by {
        lemma_field_then_separator(names[j], g, j, nf, nl);
        lemma_separator_shape(names[j], g, j, nf, nl);
    }
    lemma_separator_shape(names[l], f, l, nf, nl);
    assert(nc(f, l) =~= Seq::<char>::empty() + names[l] + separator(is_last_cell(f, l, nf, nl)));
    lemma_row_field(two, nf, nl, nc, f, l, Seq::<char>::empty(), names[l], separator(is_last_cell(f, l, nf, nl)));
    // previous row
    let pc = previous_cells(nf, nl, previous);
    assert forall|g: int, j: int| 0 <= g < nf && 0 <= j < nl implies comma_count(#[trigger] pc(g, j))
        == cell_commas(g, j, nf, nl) && ends_field(pc(g, j)) && pc(g, j).len() > 0 by {
        assert(previous_position(g, j) < previous.len());
        lemma_field_then_separator(previous[previous_position(g, j)], g, j, nf, nl);
        lemma_separator_shape(previous[previous_position(g, j)], g, j, nf, nl);
    }
    assert(previous_position(f, l) < previous.len());
    let pv = previous[previous_position(f, l)];
    lemma_separator_shape(pv, f, l, nf, nl);
    assert(pc(f, l) =~= Seq::<char>::empty() + pv + separator(is_last_cell(f, l, nf, nl)));
    let ph = previous[0] + ","@ + previous[1] + ","@;
    lemma_comma_free_count(previous[0]);
    lemma_comma_free_count(previous[1]);
    lemma_comma_count_add(previous[0], ","@);
    lemma_comma_count_add(previous[0] + ","@, previous[1]);
    lemma_comma_count_add(previous[0] + ","@ + previous[1], ","@);
    assert(ph.last() == ',');
    lemma_row_field(ph, nf, nl, pc, f, l, Seq::<char>::empty(), pv, separator(is_last_cell(f, l, nf, nl)));
    let pg = grid_text(nf, nl, no_lead(), pc);
    assert(previous_row_text(nf, nl, previous) =~= Seq::<char>::empty() + previous[0] + (","@ + previous[1]
        + ","@ + pg));
    lemma_split_field(Seq::<char>::empty(), previous[0], ","@ + previous[1] + ","@ + pg);
    assert(previous_row_text(nf, nl, previous) =~= (previous[0] + ","@) + previous[1] + (","@ + pg));
    lemma_split_field(previous[0] + ","@, previous[1], ","@ + pg);
    // current row
    let cc = current_cells(nf, nl, counts, shares);
    assert forall|g: int, j: int| 0 <= g < nf && 0 <= j < nl implies comma_count(#[trigger] cc(g, j))
        == cell_commas(g, j, nf, nl) && (!is_last_cell(g, j, nf, nl) ==> ends_field(cc(g, j)) && cc(
        g,
        j,
    ).len() > 0) by {
        let ct = count_text(counts, g, j);
        let sh = table_text(shares, g, j);
        let tail = if is_last_cell(g, j, nf, nl) {
            Seq::<char>::empty()
        } else {
            ","@
        };
        lemma_comma_free_count(ct);
        lemma_comma_free_count(sh);
        lemma_comma_count_add(ct, ","@);
        lemma_comma_count_add(ct + ","@, sh);
        lemma_comma_count_add(ct + ","@ + sh, tail);
        if !is_last_cell(g, j, nf, nl) {
            assert(cc(g, j).last() == ',');
        }
    }
    let ct = count_text(counts, f, l);
    let sh = table_text(shares, f, l);
    let tail = if is_last_cell(f, l, nf, nl) {
        Seq::<char>::empty()
    } else {
        ","@
    };
    let ch = version + ","@ + date + ","@;
    lemma_comma_free_count(version);
    lemma_comma_free_count(date);
    lemma_comma_count_add(version, ","@);
    lemma_comma_count_add(version + ","@, date);
    lemma_comma_count_add(version + ","@ + date, ","@);
    assert(ch.last() == ',');
    assert(cc(f, l) =~= Seq::<char>::empty() + ct + (","@ + sh + tail));
    lemma_row_field(ch, nf, nl, cc, f, l, Seq::<char>::empty(), ct, ","@ + sh + tail);
    assert(cc(f, l) =~= (ct + ","@) + sh + tail);
    lemma_comma_free_count(ct);
    lemma_comma_count_add(ct, ","@);
    assert((ct + ","@).last() == ',');
    lemma_row_field(ch, nf, nl, cc, f, l, ct + ","@, sh, tail);
    let cg = grid_text(nf, nl, no_lead(), cc);
    assert(current_row_text(nf, nl, version, date, counts, shares) =~= Seq::<char>::empty() + version + (
    ","@ + date + ","@ + cg));
    lemma_split_field(Seq::<char>::empty(), version, ","@ + date + ","@ + cg);
    assert(current_row_text(nf, nl, version, date, counts, shares) =~= (version + ","@) + date + (","@
        + cg));
    lemma_split_field(version + ","@, date, ","@ + cg);
    // difference row
    let dc = difference_cells(nf, nl, figures);
    assert forall|g: int, j: int| 0 <= g < nf && 0 <= j < nl implies comma_count(#[trigger] dc(g, j))
        == cell_commas(g, j, nf, nl) && ends_field(dc(g, j)) && dc(g, j).len() > 0 by {
        let d = integer_text(figures[g]@[j].difference as int);
        lemma_integer_text_comma_free(figures[g]@[j].difference as int);
        lemma_field_then_separator(d, g, j, nf, nl);
        lemma_separator_shape(d, g, j, nf, nl);
    }
    let d = integer_text(figures[f]@[l].difference as int);
    lemma_integer_text_comma_free(figures[f]@[l].difference as int);
    lemma_separator_shape(d, f, l, nf, nl);
    assert(dc(f, l) =~= Seq::<char>::empty() + d + separator(is_last_cell(f, l, nf, nl)));
    lemma_row_field(two, nf, nl, dc, f, l, Seq::<char>::empty(), d, separator(is_last_cell(f, l, nf, nl)));
    // change row
    let gc = change_cells(nf, nl, changes);
    assert forall|g: int, j: int| 0 <= g < nf && 0 <= j < nl implies comma_count(#[trigger] gc(g, j))
        == cell_commas(g, j, nf, nl) && ends_field(gc(g, j)) && gc(g, j).len() > 0 by {
        lemma_field_then_separator(table_text(changes, g, j), g, j, nf, nl);
        lemma_separator_shape(table_text(changes, g, j), g, j, nf, nl);
    }
    let cv = table_text(changes, f, l);
    lemma_separator_shape(cv, f, l, nf, nl);
    assert(gc(f, l) =~= Seq::<char>::empty() + cv + separator(is_last_cell(f, l, nf, nl)));
    lemma_row_field(two, nf, nl, gc, f, l, Seq::<char>::empty(), cv, separator(is_last_cell(f, l, nf, nl)));
}

} // verus!
