use vstd::prelude::*;
use crate::aggregate::{count_ops, count_view, is_count_listing, is_unique_listing, unique_ops};
use crate::text::{chars_of, decimal, push_char, push_decimal, push_text, string_of, views};

verus! {

/// How the operators are summarised.
#[derive(Clone, Copy, Debug, PartialEq, Eq, Structural)]
pub enum Mode {
    /// The distinct names, sorted.
    Unique,
    /// Each distinct name with its number of occurrences, sorted by name.
    Count,
}

/// Where the summary goes.
#[derive(Debug, PartialEq, Eq)]
pub enum Destination {
    Clipboard,
    /// A file in this directory, named after the input file.
    Directory(String),
    Stdout,
}

/// What a run does after the operators were extracted.
#[derive(Debug, PartialEq, Eq)]
pub enum Outcome {
    /// No operator was found: only an informational message is shown.
    NoOperators,
    ToClipboard(String),
    ToFile { path: String, contents: String },
    ToStdout(String),
}

/// Lines joined by newline characters, with none after the last.
pub open spec fn join(lines: Seq<Seq<char>>) -> Seq<char>
    decreases lines.len(),
{
    if lines.len() == 0 {
        Seq::empty()
    } else if lines.len() == 1 {
        lines[0]
    } else {
        join(lines.drop_last()) + seq!['\n'] + lines.last()
    }
}

/// The line `name: count`.
pub open spec fn count_line(entry: (Seq<char>, nat)) -> Seq<char> {
    entry.0 + seq![':', ' '] + decimal(entry.1)
}

pub open spec fn count_lines(r: Seq<(Seq<char>, nat)>) -> Seq<Seq<char>> {
    r.map_values(|e: (Seq<char>, nat)| count_line(e))
}

/// `text` is the summary of `names` in `mode`.
pub open spec fn is_report(names: Seq<Seq<char>>, mode: Mode, text: Seq<char>) -> bool {
    match mode {
        Mode::Unique => exists|u: Seq<Seq<char>>| is_unique_listing(names, u) && text == join(u),
        Mode::Count => exists|c: Seq<(Seq<char>, nat)>|
            is_count_listing(names, c) && text == join(count_lines(c)),
    }
}

/// The part of `path` after its last `/`.
pub open spec fn base_name(path: Seq<char>) -> Seq<char>
    decreases path.len(),
{
    if path.len() == 0 {
        path
    } else if path.last() == '/' {
        Seq::empty()
    } else {
        base_name(path.drop_last()).push(path.last())
    }
}

pub open spec fn xml_suffix() -> Seq<char> {
    seq!['.', 'x', 'm', 'l']
}

/// The file name of `path` without directories and without a final `.xml`.
pub open spec fn stem(path: Seq<char>) -> Seq<char> {
    let b = base_name(path);
    if b.len() >= 4 && b.skip(b.len() - 4) == xml_suffix() {
        b.take(b.len() - 4)
    } else {
        b
    }
}

pub open spec fn mode_suffix(mode: Mode) -> Seq<char> {
    match mode {
        Mode::Unique => seq!['.', 't', 'x', 't'],
        Mode::Count => seq!['_', 'c', 'o', 'u', 'n', 't', 's', '.', 't', 'x', 't'],
    }
}

/// `<dir>/<stem>.txt` in unique mode, `<dir>/<stem>_counts.txt` in count mode.
pub open spec fn output_path(dir: Seq<char>, input: Seq<char>, mode: Mode) -> Seq<char> {
    dir + seq!['/'] + stem(input) + mode_suffix(mode)
}

/// Joins the strings of `lines` with newline characters.
pub fn join_lines(lines: &Vec<String>) -> (r: String)
    ensures
        r@ == join(views(lines@)),
{
    let mut r = String::new();
    let mut i: usize = 0;
    while i < lines.len()
        invariant
            i <= lines.len(),
            r@ == join(views(lines@).take(i as int)),
        decreases lines.len() - i,
    {
        let ghost before = r@;
        if i > 0 {
            push_char(&mut r, '\n');
        }
        push_text(&mut r, lines[i].as_str());
        let ghost t = views(lines@).take(i + 1);
        assert(t.drop_last() =~= views(lines@).take(i as int));
        if i == 0 {
            assert(before =~= Seq::<char>::empty());
            assert(r@ =~= join(t));
        } else {
            assert(r@ =~= join(t));
        }
        i = i + 1;
    }
    assert(views(lines@).take(lines.len() as int) =~= views(lines@));
    r
}

/// The `name: count` lines of a count listing.
pub fn format_counts(items: &Vec<(String, usize)>) -> (r: Vec<String>)
    ensures
        views(r@) == count_lines(count_view(items@)),
{
    let mut r: Vec<String> = Vec::new();
    let mut i: usize = 0;
    while i < items.len()
        invariant
            i <= items.len(),
            views(r@) == count_lines(count_view(items@)).take(i as int),
        decreases items.len() - i,
    {
        let mut line = items[i].0.clone();
        push_char(&mut line, ':');
        push_char(&mut line, ' ');
        push_decimal(&mut line, items[i].1);
        assert(line@ =~= count_line(count_view(items@)[i as int]));
        let ghost prev = views(r@);
        r.push(line);
        assert(views(r@) =~= prev.push(line@));
        assert(count_lines(count_view(items@)).take(i + 1)
            =~= count_lines(count_view(items@)).take(i as int).push(line@));
        i = i + 1;
    }
    assert(count_lines(count_view(items@)).take(items.len() as int) =~= count_lines(count_view(items@)));
    r
}

/// The summary of the operators: in unique mode the distinct names, in
/// count mode `name: count` lines; sorted by name, one per line.
pub fn render(ops: &[String], mode: Mode) -> (r: String)
    ensures
        is_report(views(ops@), mode, r@),
{
    match mode {
        Mode::Unique => {
            let u = unique_ops(ops);
            let r = join_lines(&u);
            assert(is_unique_listing(views(ops@), views(u@)) && r@ == join(views(u@)));
            r
        },
        Mode::Count => {
            let c = count_ops(ops);
            let lines = format_counts(&c);
            let r = join_lines(&lines);
            assert(is_count_listing(views(ops@), count_view(c@))
                && r@ == join(count_lines(count_view(c@))));
            r
        },
    }
}

proof fn lemma_base_name(v: Seq<char>, j: int)
    requires
        0 <= j <= v.len(),
        forall|k: int| j <= k < v.len() ==> v[k] != '/',
        j == 0 || v[j - 1] == '/',
    ensures
        base_name(v) == v.subrange(j, v.len() as int),
    decreases v.len(),
{
    if v.len() == j {
        assert(v.subrange(j, v.len() as int) =~= Seq::<char>::empty());
        if j == 0 {
            assert(v =~= Seq::<char>::empty());
        }
    } else {
        lemma_base_name(v.drop_last(), j);
        assert(v.drop_last().subrange(j, v.len() - 1).push(v.last()) =~= v.subrange(j, v.len() as int));
    }
}

/// The path of the file that receives the summary of `input` when the
/// output goes to the directory `dir`.
pub fn output_file_path(dir: &str, input: &str, mode: Mode) -> (r: String)
    ensures
        r@ == output_path(dir@, input@, mode),
{
    let v = chars_of(input);
    let mut j: usize = v.len();
    while j > 0 && v[j - 1] != '/'
        invariant
            j <= v.len(),
            forall|k: int| j <= k < v.len() ==> v@[k] != '/',
        decreases j,
    {
        j = j - 1;
    }
    proof {
        lemma_base_name(v@, j as int);
    }
    let ghost b = v@.subrange(j as int, v.len() as int);
    let n = v.len();
    let end = if n - j >= 4 && v[n - 4] == '.' && v[n - 3] == 'x' && v[n - 2] == 'm' && v[n - 1] == 'l' {
        assert(b.skip(b.len() - 4) =~= xml_suffix());
        n - 4
    } else {
        assert(b.len() >= 4 ==> b.skip(b.len() - 4)[0] == v@[n - 4]);
        assert(b.len() >= 4 ==> b.skip(b.len() - 4)[1] == v@[n - 3]);
        assert(b.len() >= 4 ==> b.skip(b.len() - 4)[2] == v@[n - 2]);
        assert(b.len() >= 4 ==> b.skip(b.len() - 4)[3] == v@[n - 1]);
        n
    };
    let name = string_of(&v, j, end);
    assert(name@ =~= stem(input@));
    let mut r = String::new();
    push_text(&mut r, dir);
    push_char(&mut r, '/');
    push_text(&mut r, name.as_str());
    match mode {
        Mode::Unique => {
            let suffix = ".txt";
            proof {
                reveal_strlit(".txt");
            }
            push_text(&mut r, suffix);
        },
        Mode::Count => {
            let suffix = "_counts.txt";
            proof {
                reveal_strlit("_counts.txt");
            }
            push_text(&mut r, suffix);
        },
    }
    assert(r@ =~= output_path(dir@, input@, mode));
    r
}

/// The destination a run writes to: the clipboard when asked for, else the
/// directory when one is given, else standard output.
pub fn destination(clipboard: bool, output_dir: Option<String>) -> (r: Destination)
    ensures
        clipboard ==> r == Destination::Clipboard,
        !clipboard && output_dir is Some ==> r == Destination::Directory(output_dir->0),
        !clipboard && output_dir is None ==> r == Destination::Stdout,
{
    if clipboard {
        Destination::Clipboard
    } else {
        match output_dir {
            Some(d) => Destination::Directory(d),
            None => Destination::Stdout,
        }
    }
}

/// Decides what a run does with the operators extracted from the file at
/// `input_path`. With no operators nothing is written anywhere. Otherwise
/// the summary goes to the destination; a file gets a final newline.
pub fn plan_output(input_path: &str, ops: &[String], mode: Mode, dest: &Destination) -> (r: Outcome)
    ensures
        ops.len() == 0 <==> r is NoOperators,
        ops.len() > 0 ==> match *dest {
            Destination::Clipboard => r matches Outcome::ToClipboard(t)
                && is_report(views(ops@), mode, t@),
            Destination::Directory(d) => r matches Outcome::ToFile { path, contents }
                && path@ == output_path(d@, input_path@, mode)
                && contents@.len() > 0
                && contents@.last() == '\n'
                && is_report(views(ops@), mode, contents@.drop_last()),
            Destination::Stdout => r matches Outcome::ToStdout(t)
                && is_report(views(ops@), mode, t@),
        },
{
    if ops.len() == 0 {
        return Outcome::NoOperators;
    }
    let text = render(ops, mode);
    match dest {
        Destination::Clipboard => Outcome::ToClipboard(text),
        Destination::Directory(d) => {
            let path = output_file_path(d.as_str(), input_path, mode);
            let ghost t = text@;
            let mut contents = text;
            push_char(&mut contents, '\n');
            assert(contents@.drop_last() =~= t);
            Outcome::ToFile { path, contents }
        },
        Destination::Stdout => Outcome::ToStdout(text),
    }
}

} // verus!
