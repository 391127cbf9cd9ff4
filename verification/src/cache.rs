//! The cache document codec.  The on-disk cache is a line-oriented text
//! document: each record is one `p <name>` line, one `c <category>` line,
//! and one `d <dependency>` line per dependency.  Encoding and decoding are
//! exact inverses for every record whose strings contain no newline.

use vstd::prelude::*;
use vstd::string::*;
use crate::pkg::{PackageCategory, PackageModel, UserPackageWithDependencies};
use crate::text::{split_lines, split_lines_spec, str_eq};

verus! {

/// The stored label of a category.
pub open spec fn category_label_spec(c: PackageCategory) -> Seq<char> {
    match c {
        PackageCategory::Manual => "manual"@,
        PackageCategory::DesktopEnvironment => "desktop-environment"@,
        PackageCategory::System => "system"@,
        PackageCategory::Library => "library"@,
        PackageCategory::Development => "development"@,
        PackageCategory::Multimedia => "multimedia"@,
        PackageCategory::Office => "office"@,
        PackageCategory::Games => "games"@,
        PackageCategory::Utility => "utility"@,
        PackageCategory::Network => "network"@,
        PackageCategory::Security => "security"@,
        PackageCategory::OtherApplication => "other-application"@,
        PackageCategory::Unknown => "unknown"@,
    }
}

/// The category a stored label denotes, if any.
pub open spec fn parse_category_spec(s: Seq<char>) -> Option<PackageCategory> {
    if s == "manual"@ {
        Some(PackageCategory::Manual)
    } else if s == "desktop-environment"@ {
        Some(PackageCategory::DesktopEnvironment)
    } else if s == "system"@ {
        Some(PackageCategory::System)
    } else if s == "library"@ {
        Some(PackageCategory::Library)
    } else if s == "development"@ {
        Some(PackageCategory::Development)
    } else if s == "multimedia"@ {
        Some(PackageCategory::Multimedia)
    } else if s == "office"@ {
        Some(PackageCategory::Office)
    } else if s == "games"@ {
        Some(PackageCategory::Games)
    } else if s == "utility"@ {
        Some(PackageCategory::Utility)
    } else if s == "network"@ {
        Some(PackageCategory::Network)
    } else if s == "security"@ {
        Some(PackageCategory::Security)
    } else if s == "other-application"@ {
        Some(PackageCategory::OtherApplication)
    } else if s == "unknown"@ {
        Some(PackageCategory::Unknown)
    } else {
        None
    }
}

proof fn reveal_labels()
    ensures
        "manual"@ == seq!['m', 'a', 'n', 'u', 'a', 'l'],
        "system"@ == seq!['s', 'y', 's', 't', 'e', 'm'],
        "office"@ == seq!['o', 'f', 'f', 'i', 'c', 'e'],
        "games"@ == seq!['g', 'a', 'm', 'e', 's'],
        "unknown"@ == seq!['u', 'n', 'k', 'n', 'o', 'w', 'n'],
        "library"@ == seq!['l', 'i', 'b', 'r', 'a', 'r', 'y'],
        "utility"@ == seq!['u', 't', 'i', 'l', 'i', 't', 'y'],
        "network"@ == seq!['n', 'e', 't', 'w', 'o', 'r', 'k'],
        "security"@ == seq!['s', 'e', 'c', 'u', 'r', 'i', 't', 'y'],
        "multimedia"@ == seq!['m', 'u', 'l', 't', 'i', 'm', 'e', 'd', 'i', 'a'],
        "development"@ == seq!['d', 'e', 'v', 'e', 'l', 'o', 'p', 'm', 'e', 'n', 't'],
        "desktop-environment"@ == seq![
            'd',
            'e',
            's',
            'k',
            't',
            'o',
            'p',
            '-',
            'e',
            'n',
            'v',
            'i',
            'r',
            'o',
            'n',
            'm',
            'e',
            'n',
            't',
        ],
        "other-application"@ == seq![
            'o',
            't',
            'h',
            'e',
            'r',
            '-',
            'a',
            'p',
            'p',
            'l',
            'i',
            'c',
            'a',
            't',
            'i',
            'o',
            'n',
        ],
{
    reveal_strlit("manual");
    reveal_strlit("system");
    reveal_strlit("office");
    reveal_strlit("games");
    reveal_strlit("unknown");
    reveal_strlit("library");
    reveal_strlit("utility");
    reveal_strlit("network");
    reveal_strlit("security");
    reveal_strlit("multimedia");
    reveal_strlit("development");
    reveal_strlit("desktop-environment");
    reveal_strlit("other-application");
    assert("manual"@ =~= seq!['m', 'a', 'n', 'u', 'a', 'l']);
    assert("system"@ =~= seq!['s', 'y', 's', 't', 'e', 'm']);
    assert("office"@ =~= seq!['o', 'f', 'f', 'i', 'c', 'e']);
    assert("games"@ =~= seq!['g', 'a', 'm', 'e', 's']);
    assert("unknown"@ =~= seq!['u', 'n', 'k', 'n', 'o', 'w', 'n']);
    assert("library"@ =~= seq!['l', 'i', 'b', 'r', 'a', 'r', 'y']);
    assert("utility"@ =~= seq!['u', 't', 'i', 'l', 'i', 't', 'y']);
    assert("network"@ =~= seq!['n', 'e', 't', 'w', 'o', 'r', 'k']);
    assert("security"@ =~= seq!['s', 'e', 'c', 'u', 'r', 'i', 't', 'y']);
    assert("multimedia"@ =~= seq!['m', 'u', 'l', 't', 'i', 'm', 'e', 'd', 'i', 'a']);
    assert("development"@ =~= seq!['d', 'e', 'v', 'e', 'l', 'o', 'p', 'm', 'e', 'n', 't']);
    assert("desktop-environment"@ =~= seq![
        'd',
        'e',
        's',
        'k',
        't',
        'o',
        'p',
        '-',
        'e',
        'n',
        'v',
        'i',
        'r',
        'o',
        'n',
        'm',
        'e',
        'n',
        't',
    ]);
    assert("other-application"@ =~= seq![
        'o',
        't',
        'h',
        'e',
        'r',
        '-',
        'a',
        'p',
        'p',
        'l',
        'i',
        'c',
        'a',
        't',
        'i',
        'o',
        'n',
    ]);
}

/// Every category's label parses back to that category, and labels hold no
/// newline.
pub proof fn lemma_category_label_round_trip(c: PackageCategory)
    ensures
        parse_category_spec(category_label_spec(c)) == Some(c),
        forall|j: int|
            0 <= j < category_label_spec(c).len() ==> #[trigger] category_label_spec(c)[j] != '\n',
{
    reveal_labels();
}

/// A record can be stored when none of its strings contains a newline.
pub open spec fn cache_encodable(m: PackageModel) -> bool {
    &&& forall|j: int| 0 <= j < m.name.len() ==> m.name[j] != '\n'
    &&& forall|i: int, j: int|
        0 <= i < m.dependencies.len() && 0 <= j < m.dependencies[i].len()
            ==> #[trigger] m.dependencies[i][j] != '\n'
}

/// One tagged line of the document, before its terminating newline.
pub open spec fn tag_line(tag: char, payload: Seq<char>) -> Seq<char> {
    seq![tag, ' '] + payload
}

/// The text of the `d` lines for a dependency list.
pub open spec fn deps_text(deps: Seq<Seq<char>>) -> Seq<char>
    decreases deps.len(),
{
    if deps.len() == 0 {
        Seq::empty()
    } else {
        tag_line('d', deps[0]) + seq!['\n'] + deps_text(deps.drop_first())
    }
}

/// The text of one stored record.
pub open spec fn record_text(m: PackageModel) -> Seq<char> {
    tag_line('p', m.name) + seq!['\n'] + tag_line('c', category_label_spec(m.category)) + seq![
        '\n',
    ] + deps_text(m.dependencies)
}

/// The whole document for a sequence of records.
pub open spec fn encode_spec(rs: Seq<PackageModel>) -> Seq<char>
    decreases rs.len(),
{
    if rs.len() == 0 {
        Seq::empty()
    } else {
        record_text(rs[0]) + encode_spec(rs.drop_first())
    }
}

proof fn lemma_encode_push(rs: Seq<PackageModel>, m: PackageModel)
    ensures
        encode_spec(rs.push(m)) == encode_spec(rs) + record_text(m),
    decreases rs.len(),
{
    if rs.len() == 0 {
        assert(rs.push(m)[0] == m);
        assert(rs.push(m).drop_first() =~= Seq::<PackageModel>::empty());
        assert(record_text(m) + Seq::<char>::empty() =~= record_text(m));
        assert(encode_spec(Seq::<PackageModel>::empty()) == Seq::<char>::empty());
        assert(encode_spec(rs.push(m)) =~= record_text(m));
        assert(encode_spec(rs) + record_text(m) =~= record_text(m));
    } else {
        assert(rs.push(m).drop_first() =~= rs.drop_first().push(m));
        assert(rs.push(m)[0] == rs[0]);
        lemma_encode_push(rs.drop_first(), m);
        assert(record_text(rs[0]) + (encode_spec(rs.drop_first()) + record_text(m)) =~= (
        record_text(rs[0]) + encode_spec(rs.drop_first())) + record_text(m));
    }
}

proof fn lemma_deps_text_push(deps: Seq<Seq<char>>, d: Seq<char>)
    ensures
        deps_text(deps.push(d)) == deps_text(deps) + (tag_line('d', d) + seq!['\n']),
    decreases deps.len(),
{
    if deps.len() == 0 {
        assert(deps.push(d)[0] == d);
        assert(deps.push(d).drop_first() =~= Seq::<Seq<char>>::empty());
        assert((tag_line('d', d) + seq!['\n']) + Seq::<char>::empty() =~= tag_line('d', d) + seq![
            '\n',
        ]);
        assert(deps_text(Seq::<Seq<char>>::empty()) == Seq::<char>::empty());
        assert(deps_text(deps.push(d)) =~= tag_line('d', d) + seq!['\n']);
        assert(deps_text(deps) + (tag_line('d', d) + seq!['\n']) =~= tag_line('d', d) + seq![
            '\n',
        ]);
    } else {
        assert(deps.push(d).drop_first() =~= deps.drop_first().push(d));
        assert(deps.push(d)[0] == deps[0]);
        lemma_deps_text_push(deps.drop_first(), d);
        assert(tag_line('d', deps[0]) + seq!['\n'] + (deps_text(deps.drop_first()) + (tag_line(
            'd',
            d,
        ) + seq!['\n'])) =~= (tag_line('d', deps[0]) + seq!['\n'] + deps_text(deps.drop_first()))
            + (tag_line('d', d) + seq!['\n']));
    }
}

/// The stored label of a category.
pub fn category_label(c: &PackageCategory) -> (r: String)
    ensures
        r@ == category_label_spec(*c),
{
    match c {
        PackageCategory::Manual => String::from_str("manual"),
        PackageCategory::DesktopEnvironment => String::from_str("desktop-environment"),
        PackageCategory::System => String::from_str("system"),
        PackageCategory::Library => String::from_str("library"),
        PackageCategory::Development => String::from_str("development"),
        PackageCategory::Multimedia => String::from_str("multimedia"),
        PackageCategory::Office => String::from_str("office"),
        PackageCategory::Games => String::from_str("games"),
        PackageCategory::Utility => String::from_str("utility"),
        PackageCategory::Network => String::from_str("network"),
        PackageCategory::Security => String::from_str("security"),
        PackageCategory::OtherApplication => String::from_str("other-application"),
        PackageCategory::Unknown => String::from_str("unknown"),
    }
}

/// The category a stored label denotes, if any.
pub fn parse_category(s: &str) -> (r: Option<PackageCategory>)
    ensures
        r == parse_category_spec(s@),
{
    if str_eq(s, "manual") {
        Some(PackageCategory::Manual)
    } else if str_eq(s, "desktop-environment") {
        Some(PackageCategory::DesktopEnvironment)
    } else if str_eq(s, "system") {
        Some(PackageCategory::System)
    } else if str_eq(s, "library") {
        Some(PackageCategory::Library)
    } else if str_eq(s, "development") {
        Some(PackageCategory::Development)
    } else if str_eq(s, "multimedia") {
        Some(PackageCategory::Multimedia)
    } else if str_eq(s, "office") {
        Some(PackageCategory::Office)
    } else if str_eq(s, "games") {
        Some(PackageCategory::Games)
    } else if str_eq(s, "utility") {
        Some(PackageCategory::Utility)
    } else if str_eq(s, "network") {
        Some(PackageCategory::Network)
    } else if str_eq(s, "security") {
        Some(PackageCategory::Security)
    } else if str_eq(s, "other-application") {
        Some(PackageCategory::OtherApplication)
    } else if str_eq(s, "unknown") {
        Some(PackageCategory::Unknown)
    } else {
        None
    }
}

/// Renders a sequence of records as the cache document.
pub fn encode_cache(data: &Vec<UserPackageWithDependencies>) -> (r: String)
    ensures
        r@ == encode_spec(data.deep_view()),
{
    let ghost dv = data.deep_view();
    let mut out = String::new();
    proof {
        reveal_strlit("p ");
        reveal_strlit("c ");
        reveal_strlit("d ");
        reveal_strlit("\n");
        assert("p "@ =~= seq!['p', ' ']);
        assert("c "@ =~= seq!['c', ' ']);
        assert("d "@ =~= seq!['d', ' ']);
        assert("\n"@ =~= seq!['\n']);
        assert(encode_spec(dv.take(0)) =~= Seq::<char>::empty());
        assert(dv.take(0) =~= Seq::<PackageModel>::empty());
    }
    let mut i: usize = 0;
    while i < data.len()
        invariant
            0 <= i <= data.len(),
            dv == data.deep_view(),
            out@ == encode_spec(dv.take(i as int)),
        decreases data.len() - i,
    {
        let rec = &data[i];
        let ghost m = dv[i as int];
        proof {
            reveal_strlit("p ");
            reveal_strlit("c ");
            reveal_strlit("d ");
            reveal_strlit("\n");
            assert("p "@ =~= seq!['p', ' ']);
            assert("c "@ =~= seq!['c', ' ']);
            assert("d "@ =~= seq!['d', ' ']);
            assert("\n"@ =~= seq!['\n']);
        }
        let ghost before = out@;
        out.append("p ");
        out.append(rec.name.as_str());
        out.append("\n");
        out.append("c ");
        let label = category_label(&rec.category);
        out.append(label.as_str());
        out.append("\n");
        proof {
            assert(out@ =~= before + (tag_line('p', m.name) + seq!['\n'] + tag_line(
                'c',
                category_label_spec(m.category),
            ) + seq!['\n']));
        }
        let ghost head = out@;
        let nd = rec.dependencies.len();
        let mut k: usize = 0;
        while k < nd
            invariant
                0 <= k <= nd,
                nd == rec.dependencies.len(),
                m == rec.deep_view(),
                out@ == head + deps_text(m.dependencies.take(k as int)),
                head == before + (tag_line('p', m.name) + seq!['\n'] + tag_line(
                    'c',
                    category_label_spec(m.category),
                ) + seq!['\n']),
            decreases nd - k,
        {
            proof {
                reveal_strlit("d ");
                reveal_strlit("\n");
                assert("d "@ =~= seq!['d', ' ']);
                assert("\n"@ =~= seq!['\n']);
            }
            let ghost b2 = out@;
            out.append("d ");
            out.append(rec.dependencies[k].name.as_str());
            out.append("\n");
            proof {
                let d = m.dependencies[k as int];
                assert(rec.dependencies[k as int]@ == d);
                assert(out@ =~= b2 + (tag_line('d', d) + seq!['\n']));
                lemma_deps_text_push(m.dependencies.take(k as int), d);
                assert(m.dependencies.take(k as int).push(d) =~= m.dependencies.take(k + 1));
            }
            k = k + 1;
        }
        proof {
            assert(m.dependencies.take(nd as int) =~= m.dependencies);
            assert(out@ =~= before + record_text(m));
            lemma_encode_push(dv.take(i as int), m);
            assert(dv.take(i as int).push(m) =~= dv.take(i + 1));
        }
        i = i + 1;
    }
    proof {
        assert(dv.take(data.len() as int) =~= dv);
    }
    out
}

/// A line of the document carries `tag` when it begins with the tag
/// character and a space.
pub open spec fn is_tag(line: Seq<char>, tag: char) -> bool {
    line.len() >= 2 && line[0] == tag && line[1] == ' '
}

/// The payload of a tagged line.
pub open spec fn payload(line: Seq<char>) -> Seq<char> {
    line.skip(2)
}

/// The decoder's state after some lines: failed, nothing read yet, a
/// record opened but its category line still owed, or inside a record's
/// dependency lines.
pub enum DecodeState {
    Fail,
    Fresh,
    NeedCat { done: Seq<PackageModel>, name: Seq<char> },
    Body { done: Seq<PackageModel>, cur: PackageModel },
}

/// One line of the document advances the decoder: a `p` line opens a
/// record (closing the previous one), the `c` line owed after it fixes the
/// category, `d` lines append dependencies; anything else is a malformed
/// document.
pub open spec fn decode_step(st: DecodeState, line: Seq<char>) -> DecodeState {
    match st {
        DecodeState::Fail => DecodeState::Fail,
        DecodeState::Fresh => {
            if is_tag(line, 'p') {
                DecodeState::NeedCat { done: Seq::empty(), name: payload(line) }
            } else {
                DecodeState::Fail
            }
        },
        DecodeState::NeedCat { done, name } => {
            if is_tag(line, 'c') {
                match parse_category_spec(payload(line)) {
                    Some(c) => DecodeState::Body {
                        done,
                        cur: PackageModel { name, category: c, dependencies: Seq::empty() },
                    },
                    None => DecodeState::Fail,
                }
            } else {
                DecodeState::Fail
            }
        },
        DecodeState::Body { done, cur } => {
            if is_tag(line, 'd') {
                DecodeState::Body {
                    done,
                    cur: PackageModel {
                        name: cur.name,
                        category: cur.category,
                        dependencies: cur.dependencies.push(payload(line)),
                    },
                }
            } else if is_tag(line, 'p') {
                DecodeState::NeedCat { done: done.push(cur), name: payload(line) }
            } else {
                DecodeState::Fail
            }
        },
    }
}

/// The decoder run over a sequence of lines.
pub open spec fn fold_steps(st: DecodeState, lines: Seq<Seq<char>>) -> DecodeState
    decreases lines.len(),
{
    if lines.len() == 0 {
        st
    } else {
        fold_steps(decode_step(st, lines[0]), lines.drop_first())
    }
}

/// The records a final decoder state denotes: an untouched decoder read the
/// valid empty document; a decoder inside a record closes it; a decoder
/// still owed a category line read a truncated document.
pub open spec fn finish_decode(st: DecodeState) -> Option<Seq<PackageModel>> {
    match st {
        DecodeState::Fail => None,
        DecodeState::Fresh => Some(Seq::empty()),
        DecodeState::NeedCat { done, name } => None,
        DecodeState::Body { done, cur } => Some(done.push(cur)),
    }
}

/// The records a document denotes, if it is well formed.
pub open spec fn decode_spec(text: Seq<char>) -> Option<Seq<PackageModel>> {
    finish_decode(fold_steps(DecodeState::Fresh, split_lines_spec(text)))
}

proof fn lemma_fold_push(st: DecodeState, lines: Seq<Seq<char>>, x: Seq<char>)
    ensures
        fold_steps(st, lines.push(x)) == decode_step(fold_steps(st, lines), x),
    decreases lines.len(),
{
    if lines.len() == 0 {
        assert(lines.push(x)[0] == x);
        assert(lines.push(x).drop_first() =~= Seq::<Seq<char>>::empty());
        assert(fold_steps(decode_step(st, x), Seq::<Seq<char>>::empty()) == decode_step(st, x));
    } else {
        assert(lines.push(x)[0] == lines[0]);
        assert(lines.push(x).drop_first() =~= lines.drop_first().push(x));
        lemma_fold_push(decode_step(st, lines[0]), lines.drop_first(), x);
    }
}

proof fn lemma_fold_concat(st: DecodeState, a: Seq<Seq<char>>, b: Seq<Seq<char>>)
    ensures
        fold_steps(st, a + b) == fold_steps(fold_steps(st, a), b),
    decreases a.len(),
{
    if a.len() == 0 {
        assert(a + b =~= b);
    } else {
        assert((a + b)[0] == a[0]);
        assert((a + b).drop_first() =~= a.drop_first() + b);
        lemma_fold_concat(decode_step(st, a[0]), a.drop_first(), b);
    }
}

proof fn lemma_fold_fail(lines: Seq<Seq<char>>)
    ensures
        fold_steps(DecodeState::Fail, lines) == DecodeState::Fail,
    decreases lines.len(),
{
    if lines.len() > 0 {
        lemma_fold_fail(lines.drop_first());
    }
}

/// The `d` lines of a dependency list.
pub open spec fn dep_lines(ds: Seq<Seq<char>>) -> Seq<Seq<char>> {
    Seq::new(ds.len(), |i: int| tag_line('d', ds[i]))
}

/// The lines of one stored record.
pub open spec fn record_lines(m: PackageModel) -> Seq<Seq<char>> {
    seq![tag_line('p', m.name), tag_line('c', category_label_spec(m.category))] + dep_lines(
        m.dependencies,
    )
}

/// The lines of the whole document.
pub open spec fn doc_lines(rs: Seq<PackageModel>) -> Seq<Seq<char>>
    decreases rs.len(),
{
    if rs.len() == 0 {
        Seq::empty()
    } else {
        record_lines(rs[0]) + doc_lines(rs.drop_first())
    }
}

proof fn lemma_split_deps(ds: Seq<Seq<char>>, rest: Seq<char>)
    requires
        forall|i: int, j: int|
            0 <= i < ds.len() && 0 <= j < ds[i].len() ==> #[trigger] ds[i][j] != '\n',
    ensures
        split_lines_spec(deps_text(ds) + rest) == dep_lines(ds) + split_lines_spec(rest),
    decreases ds.len(),
{
    if ds.len() == 0 {
        assert(deps_text(ds) + rest =~= rest);
        assert(dep_lines(ds) + split_lines_spec(rest) =~= split_lines_spec(rest));
    } else {
        let line = tag_line('d', ds[0]);
        assert(forall|j: int| 0 <= j < line.len() ==> line[j] != '\n');
        assert(deps_text(ds) + rest =~= line + seq!['\n'] + (deps_text(ds.drop_first()) + rest));
        crate::text::lemma_split_first_line(line, deps_text(ds.drop_first()) + rest);
        assert(forall|i: int, j: int|
            0 <= i < ds.drop_first().len() && 0 <= j < ds.drop_first()[i].len()
                ==> #[trigger] ds.drop_first()[i][j] != '\n');
        lemma_split_deps(ds.drop_first(), rest);
        assert(seq![line] + (dep_lines(ds.drop_first()) + split_lines_spec(rest)) =~= dep_lines(ds)
            + split_lines_spec(rest));
    }
}

proof fn lemma_split_doc(rs: Seq<PackageModel>)
    requires
        forall|i: int| 0 <= i < rs.len() ==> cache_encodable(#[trigger] rs[i]),
    ensures
        split_lines_spec(encode_spec(rs)) == doc_lines(rs),
    decreases rs.len(),
{
    if rs.len() == 0 {
        assert(split_lines_spec(encode_spec(rs)) =~= Seq::<Seq<char>>::empty());
        assert(doc_lines(rs) =~= Seq::<Seq<char>>::empty());
    } else {
        let m = rs[0];
        assert(cache_encodable(m));
        let pl = tag_line('p', m.name);
        let cl = tag_line('c', category_label_spec(m.category));
        lemma_category_label_round_trip(m.category);
        assert(forall|j: int| 0 <= j < pl.len() ==> pl[j] != '\n');
        assert(forall|j: int| 0 <= j < cl.len() ==> cl[j] != '\n');
        let rest0 = encode_spec(rs.drop_first());
        assert(encode_spec(rs) =~= pl + seq!['\n'] + (cl + seq!['\n'] + (deps_text(m.dependencies)
            + rest0)));
        crate::text::lemma_split_first_line(pl, cl + seq!['\n'] + (deps_text(m.dependencies)
            + rest0));
        crate::text::lemma_split_first_line(cl, deps_text(m.dependencies) + rest0);
        lemma_split_deps(m.dependencies, rest0);
        lemma_split_doc(rs.drop_first());
        assert(seq![pl] + (seq![cl] + (dep_lines(m.dependencies) + doc_lines(rs.drop_first())))
            =~= record_lines(m) + doc_lines(rs.drop_first()));
    }
}

proof fn lemma_fold_dep_lines(done: Seq<PackageModel>, name: Seq<char>, c: PackageCategory, acc: Seq<Seq<char>>, ds: Seq<Seq<char>>)
    ensures
        fold_steps(
            (DecodeState::Body {
                done,
                cur: PackageModel { name, category: c, dependencies: acc },
            }),
            dep_lines(ds),
        ) == (DecodeState::Body {
            done,
            cur: PackageModel { name, category: c, dependencies: acc + ds },
        }),
    decreases ds.len(),
{
    if ds.len() == 0 {
        assert(dep_lines(ds) =~= Seq::<Seq<char>>::empty());
        assert(acc + ds =~= acc);
    } else {
        let line = tag_line('d', ds[0]);
        assert(dep_lines(ds)[0] == line);
        assert(is_tag(line, 'd'));
        assert(payload(line) =~= ds[0]);
        assert(dep_lines(ds).drop_first() =~= dep_lines(ds.drop_first()));
        lemma_fold_dep_lines(done, name, c, acc.push(ds[0]), ds.drop_first());
        assert(acc.push(ds[0]) + ds.drop_first() =~= acc + ds);
    }
}

proof fn lemma_fold_doc(done: Seq<PackageModel>, cur: PackageModel, rs: Seq<PackageModel>)
    ensures
        finish_decode(fold_steps((DecodeState::Body { done, cur }), doc_lines(rs))) == Some(
            done.push(cur) + rs,
        ),
    decreases rs.len(),
{
    if rs.len() == 0 {
        assert(doc_lines(rs) =~= Seq::<Seq<char>>::empty());
        assert(done.push(cur) + rs =~= done.push(cur));
    } else {
        let m = rs[0];
        let pl = tag_line('p', m.name);
        let cl = tag_line('c', category_label_spec(m.category));
        lemma_category_label_round_trip(m.category);
        lemma_fold_concat(DecodeState::Body { done, cur }, record_lines(m), doc_lines(
            rs.drop_first(),
        ));
        assert(doc_lines(rs) == record_lines(m) + doc_lines(rs.drop_first()));
        // step through the record's own lines
        assert(record_lines(m)[0] == pl);
        assert(is_tag(pl, 'p'));
        assert(payload(pl) =~= m.name);
        let st1 = decode_step(DecodeState::Body { done, cur }, pl);
        assert(st1 == DecodeState::NeedCat { done: done.push(cur), name: m.name });
        assert(record_lines(m).drop_first()[0] == cl);
        assert(is_tag(cl, 'c'));
        assert(payload(cl) =~= category_label_spec(m.category));
        let st2 = decode_step(st1, cl);
        assert(st2 == DecodeState::Body {
            done: done.push(cur),
            cur: PackageModel {
                name: m.name,
                category: m.category,
                dependencies: Seq::empty(),
            },
        });
        assert(record_lines(m).drop_first().drop_first() =~= dep_lines(m.dependencies));
        lemma_fold_dep_lines(done.push(cur), m.name, m.category, Seq::empty(), m.dependencies);
        assert(Seq::<Seq<char>>::empty() + m.dependencies =~= m.dependencies);
        let st3 = fold_steps(st2, dep_lines(m.dependencies));
        assert(st3 == DecodeState::Body { done: done.push(cur), cur: m }) by {
            assert(PackageModel {
                name: m.name,
                category: m.category,
                dependencies: m.dependencies,
            } == m);
        }
        assert(fold_steps(DecodeState::Body { done, cur }, record_lines(m)) == st3) by {
            assert(record_lines(m) =~= seq![pl] + (seq![cl] + dep_lines(m.dependencies)));
            lemma_fold_concat(DecodeState::Body { done, cur }, seq![pl], seq![cl] + dep_lines(
                m.dependencies,
            ));
            lemma_fold_concat(st1, seq![cl], dep_lines(m.dependencies));
            assert(fold_steps(DecodeState::Body { done, cur }, seq![pl]) == st1) by {
                assert(seq![pl].drop_first() =~= Seq::<Seq<char>>::empty());
                assert(seq![pl][0] == pl);
                assert(fold_steps(st1, Seq::<Seq<char>>::empty()) == st1);
            }
            assert(fold_steps(st1, seq![cl]) == st2) by {
                assert(seq![cl].drop_first() =~= Seq::<Seq<char>>::empty());
                assert(seq![cl][0] == cl);
                assert(fold_steps(st2, Seq::<Seq<char>>::empty()) == st2);
            }
        }
        lemma_fold_doc(done.push(cur), m, rs.drop_first());
        assert(done.push(cur).push(m) + rs.drop_first() =~= done.push(cur) + rs);
    }
}

enum Phase {
    Fresh,
    NeedCat,
    Body,
}

/// Reads a cache document back into records; `None` on a malformed
/// document.
pub fn decode_cache(text: &str) -> (r: Option<Vec<UserPackageWithDependencies>>)
    ensures
        match r {
            Some(v) => decode_spec(text@) == Some(v.deep_view()),
            None => decode_spec(text@) is None,
        },
{
    let lines = split_lines(text);
    let ghost lseq = split_lines_spec(text@);
    let nl = lines.len();
    let mut done: Vec<UserPackageWithDependencies> = Vec::new();
    let mut phase = Phase::Fresh;
    let mut cur_name = String::new();
    let mut cur_cat = PackageCategory::Unknown;
    let mut cur_deps: Vec<String> = Vec::new();
    let mut i: usize = 0;
    proof {
        assert(lseq.take(0) =~= Seq::<Seq<char>>::empty());
    }
    while i < nl
        invariant
            0 <= i <= nl,
            nl == lines.len(),
            lines.deep_view() == lseq,
            lseq == split_lines_spec(text@),
            match phase {
                Phase::Fresh => fold_steps(DecodeState::Fresh, lseq.take(i as int))
                    == DecodeState::Fresh && done.len() == 0,
                Phase::NeedCat => fold_steps(DecodeState::Fresh, lseq.take(i as int)) == (
                DecodeState::NeedCat { done: done.deep_view(), name: cur_name@ }),
                Phase::Body => fold_steps(DecodeState::Fresh, lseq.take(i as int)) == (
                DecodeState::Body {
                    done: done.deep_view(),
                    cur: PackageModel {
                        name: cur_name@,
                        category: cur_cat,
                        dependencies: cur_deps.deep_view(),
                    },
                }),
            },
        decreases nl - i,
    {
        let ghost st = fold_steps(DecodeState::Fresh, lseq.take(i as int));
        proof {
            assert(lseq.take(i + 1) =~= lseq.take(i as int).push(lseq[i as int]));
            lemma_fold_push(DecodeState::Fresh, lseq.take(i as int), lseq[i as int]);
        }
        assert(lines[i as int].deep_view() == lseq[i as int]);
        let line = lines[i].as_str();
        let ghost lv = lseq[i as int];
        let n2 = line.unicode_len();
        let mut tag: char = ' ';
        if n2 >= 2 && line.get_char(1) == ' ' {
            tag = line.get_char(0);
        }
        proof {
            if n2 >= 2 && lv[1] == ' ' {
                assert(tag == lv[0]);
            } else {
                assert(!is_tag(lv, 'p') && !is_tag(lv, 'c') && !is_tag(lv, 'd'));
            }
        }
        let mut ok = true;
        match phase {
            Phase::Fresh => {
                if tag == 'p' {
                    cur_name = String::from_str(line.substring_char(2, n2));
                    proof {
                        assert(cur_name@ =~= payload(lv));
                    }
                    phase = Phase::NeedCat;
                    proof {
                        assert(done.deep_view() =~= Seq::<PackageModel>::empty());
                    }
                } else {
                    ok = false;
                }
            },
            Phase::NeedCat => {
                if tag == 'c' {
                    match parse_category(line.substring_char(2, n2)) {
                        Some(c) => {
                            proof {
                                assert(lv.subrange(2, n2 as int) =~= payload(lv));
                            }
                            cur_cat = c;
                            cur_deps = Vec::new();
                            phase = Phase::Body;
                            proof {
                                assert(cur_deps.deep_view() =~= Seq::<Seq<char>>::empty());
                            }
                        },
                        None => {
                            proof {
                                assert(lv.subrange(2, n2 as int) =~= payload(lv));
                            }
                            ok = false;
                        },
                    }
                } else {
                    ok = false;
                }
            },
            Phase::Body => {
                if tag == 'd' {
                    let ghost old_deps = cur_deps.deep_view();
                    cur_deps.push(String::from_str(line.substring_char(2, n2)));
                    proof {
                        assert(lv.subrange(2, n2 as int) =~= payload(lv));
                        assert(cur_deps.deep_view() =~= old_deps.push(payload(lv)));
                    }
                } else if tag == 'p' {
                    let ghost old_done = done.deep_view();
                    let ghost closed = PackageModel {
                        name: cur_name@,
                        category: cur_cat,
                        dependencies: cur_deps.deep_view(),
                    };
                    let finished = UserPackageWithDependencies {
                        name: cur_name,
                        category: cur_cat,
                        dependencies: crate::pkg::to_displayable(&cur_deps),
                    };
                    proof {
                        assert(finished@ == closed);
                    }
                    done.push(finished);
                    cur_name = String::from_str(line.substring_char(2, n2));
                    proof {
                        assert(done.deep_view() =~= old_done.push(closed));
                        assert(cur_name@ =~= payload(lv));
                    }
                    phase = Phase::NeedCat;
                } else {
                    ok = false;
                }
            },
        }
        if !ok {
            proof {
                assert(fold_steps(DecodeState::Fresh, lseq.take(i + 1)) == DecodeState::Fail);
                assert(lseq =~= lseq.take(i + 1) + lseq.skip(i + 1));
                lemma_fold_concat(DecodeState::Fresh, lseq.take(i + 1), lseq.skip(i + 1));
                lemma_fold_fail(lseq.skip(i + 1));
                assert(fold_steps(DecodeState::Fresh, lseq.take(i + 1) + lseq.skip(i + 1))
                    == DecodeState::Fail);
                assert(fold_steps(DecodeState::Fresh, lseq) == DecodeState::Fail);
                assert(fold_steps(DecodeState::Fresh, split_lines_spec(text@))
                    == DecodeState::Fail);
                assert(finish_decode(DecodeState::Fail) is None);
                assert(decode_spec(text@) is None);
            }
            return None;
        }
        i = i + 1;
    }
    proof {
        assert(lseq.take(nl as int) =~= lseq);
    }
    match phase {
        Phase::Fresh => {
            proof {
                assert(done.deep_view() =~= Seq::<PackageModel>::empty());
            }
            Some(done)
        },
        Phase::NeedCat => None,
        Phase::Body => {
            let ghost old_done = done.deep_view();
            let ghost closed = PackageModel {
                name: cur_name@,
                category: cur_cat,
                dependencies: cur_deps.deep_view(),
            };
            let finished = UserPackageWithDependencies {
                name: cur_name,
                category: cur_cat,
                dependencies: crate::pkg::to_displayable(&cur_deps),
            };
            proof {
                assert(finished@ == closed);
            }
            done.push(finished);
            proof {
                assert(done.deep_view() =~= old_done.push(closed));
            }
            Some(done)
        },
    }
}

/// Decoding inverts encoding: every storable sequence of records is read
/// back exactly, the empty sequence included.
pub proof fn lemma_cache_round_trip(rs: Seq<PackageModel>)
    requires
        forall|i: int| 0 <= i < rs.len() ==> cache_encodable(#[trigger] rs[i]),
    ensures
        decode_spec(encode_spec(rs)) == Some(rs),
{
    lemma_split_doc(rs);
    if rs.len() == 0 {
        assert(doc_lines(rs) =~= Seq::<Seq<char>>::empty());
        assert(fold_steps(DecodeState::Fresh, doc_lines(rs)) == DecodeState::Fresh);
    } else {
        let m = rs[0];
        let pl = tag_line('p', m.name);
        let cl = tag_line('c', category_label_spec(m.category));
        lemma_category_label_round_trip(m.category);
        assert(doc_lines(rs) == record_lines(m) + doc_lines(rs.drop_first()));
        lemma_fold_concat(DecodeState::Fresh, record_lines(m), doc_lines(rs.drop_first()));
        assert(record_lines(m)[0] == pl);
        assert(is_tag(pl, 'p'));
        assert(payload(pl) =~= m.name);
        let st1 = decode_step(DecodeState::Fresh, pl);
        assert(st1 == DecodeState::NeedCat { done: Seq::empty(), name: m.name });
        assert(record_lines(m).drop_first()[0] == cl);
        assert(is_tag(cl, 'c'));
        assert(payload(cl) =~= category_label_spec(m.category));
        let st2 = decode_step(st1, cl);
        assert(record_lines(m).drop_first().drop_first() =~= dep_lines(m.dependencies));
        lemma_fold_dep_lines(Seq::empty(), m.name, m.category, Seq::empty(), m.dependencies);
        assert(Seq::<Seq<char>>::empty() + m.dependencies =~= m.dependencies);
        let st3 = fold_steps(st2, dep_lines(m.dependencies));
        assert(st3 == DecodeState::Body { done: Seq::empty(), cur: m }) by {
            assert(PackageModel {
                name: m.name,
                category: m.category,
                dependencies: m.dependencies,
            } == m);
        }
        assert(fold_steps(DecodeState::Fresh, record_lines(m)) == st3) by {
            assert(record_lines(m) =~= seq![pl] + (seq![cl] + dep_lines(m.dependencies)));
            lemma_fold_concat(DecodeState::Fresh, seq![pl], seq![cl] + dep_lines(m.dependencies));
            lemma_fold_concat(st1, seq![cl], dep_lines(m.dependencies));
            assert(fold_steps(DecodeState::Fresh, seq![pl]) == st1) by {
                assert(seq![pl].drop_first() =~= Seq::<Seq<char>>::empty());
                assert(seq![pl][0] == pl);
                assert(fold_steps(st1, Seq::<Seq<char>>::empty()) == st1);
            }
            assert(fold_steps(st1, seq![cl]) == st2) by {
                assert(seq![cl].drop_first() =~= Seq::<Seq<char>>::empty());
                assert(seq![cl][0] == cl);
                assert(fold_steps(st2, Seq::<Seq<char>>::empty()) == st2);
            }
        }
        lemma_fold_doc(Seq::empty(), m, rs.drop_first());
        assert(Seq::<PackageModel>::empty().push(m) + rs.drop_first() =~= rs);
    }
}

} // verus!
