//! The expression tree of a line, and the parser that builds it.
use vstd::prelude::*;

use crate::error::{Error, ErrorView};
use crate::tokenizer::{is_word, join_words, lemma_words_of_joined, words, LineIter};

verus! {

/// The two control operators that join commands on a line.
#[derive(Debug, Clone, Copy, PartialEq, Eq, Structural)]
pub enum Op {
    /// `;`: run the left side, then the right side.
    Semicolon,
    /// `&&`: run the right side only when the left side succeeded.
    And,
}

/// A command that the shell carries out itself.
#[derive(Debug)]
pub enum Builtin {
    /// Leave the shell with this status.
    Exit(i32),
    /// Change the working directory to this path.
    Cd(String),
}

/// An external program and its arguments.
#[derive(Debug)]
pub struct Invoke {
    pub binary: String,
    pub args: LineIter,
}

/// One command of a line.
#[derive(Debug)]
pub enum Cmd {
    /// An external program to start.
    Invoke(Invoke),
    /// A command of the shell itself.
    Builtin(Builtin),
}

/// Two expressions joined by an operator.
#[derive(Debug)]
pub struct Compound {
    pub op: Op,
    pub left: Expression,
    pub right: Expression,
}

/// A parsed line: a single command, or two expressions joined by an operator.
#[derive(Debug)]
pub enum Expression {
    Cmd(Cmd),
    Compound(Box<Compound>),
}

/// A [`Cmd`] as a mathematical value.
pub enum CmdView {
    /// The program's name and its arguments.
    Invoke(Seq<char>, Seq<Seq<char>>),
    Exit(i32),
    Cd(Seq<char>),
}

/// An [`Expression`] as a mathematical value.
pub enum ExprView {
    Leaf(CmdView),
    Node(Op, Box<ExprView>, Box<ExprView>),
}

impl View for Cmd {
    type V = CmdView;

    open spec fn view(&self) -> CmdView {
        match self {
            Cmd::Invoke(i) => CmdView::Invoke(i.binary@, i.args@),
            Cmd::Builtin(Builtin::Exit(code)) => CmdView::Exit(*code),
            Cmd::Builtin(Builtin::Cd(path)) => CmdView::Cd(path@),
        }
    }
}

impl View for Expression {
    type V = ExprView;

    open spec fn view(&self) -> ExprView
        decreases self,
    {
        match self {
            Expression::Cmd(c) => ExprView::Leaf(c@),
            Expression::Compound(b) => ExprView::Node(b.op, Box::new(b.left@), Box::new(b.right@)),
        }
    }
}


/// The name of the builtin that leaves the shell.
pub open spec fn exit_word() -> Seq<char> {
    seq!['e', 'x', 'i', 't']
}

/// The name of the builtin that changes the working directory.
pub open spec fn cd_word() -> Seq<char> {
    seq!['c', 'd']
}

/// The command that a fragment holds: its first word names it, the other
/// words are its arguments.
pub open spec fn parse_cmd(s: Seq<char>) -> Result<CmdView, ErrorView> {
    let w = words(s);
    if w.len() == 0 {
        Err(ErrorView::EmptyLine)
    } else if w[0] == exit_word() {
        Ok(CmdView::Exit(0))
    } else if w[0] == cd_word() {
        if w.len() < 2 {
            Err(ErrorView::NoDir)
        } else {
            Ok(CmdView::Cd(w[1]))
        }
    } else {
        Ok(CmdView::Invoke(w[0], w.drop_first()))
    }
}

/// The pieces of `s` after the piece `cur` that is being read, cut at each
/// occurrence of `sep` from left to right; `sep` itself is dropped.
pub open spec fn split_after(s: Seq<char>, sep: Seq<char>, cur: Seq<char>) -> Seq<Seq<char>>
    decreases s.len(),
{
    if sep.len() == 0 {
        seq![cur + s]
    } else if s.len() == 0 {
        seq![cur]
    } else if sep.len() <= s.len() && s.take(sep.len() as int) == sep {
        seq![cur] + split_after(s.skip(sep.len() as int), sep, seq![])
    } else {
        split_after(s.drop_first(), sep, cur.push(s[0]))
    }
}

/// The pieces of `s` between the occurrences of `sep`, as `str::split` cuts them.
pub open spec fn split(s: Seq<char>, sep: Seq<char>) -> Seq<Seq<char>> {
    split_after(s, sep, seq![])
}

/// The views of a list of strings.
pub open spec fn views(v: Seq<String>) -> Seq<Seq<char>> {
    v.map_values(|p: String| p@)
}

/// The characters of `s`, one by one.
fn chars_of(s: &str) -> (r: Vec<char>)
    ensures
        r@ == s@,
{
    let len = s.unicode_len();
    let mut r: Vec<char> = Vec::new();
    let mut i: usize = 0;
    while i < len
        invariant
            len == s@.len(),
            i <= len,
            r@ == s@.take(i as int),
        decreases len - i,
    {
        r.push(s.get_char(i));
        assert(s@.take(i + 1) =~= s@.take(i as int).push(s@[i as int]));
        i = i + 1;
    }
    assert(s@.take(len as int) =~= s@);
    r
}

/// Whether `sep` occurs in `s` at position `i`.
fn occurs_at(s: &Vec<char>, i: usize, sep: &Vec<char>) -> (r: bool)
    requires
        i <= s@.len(),
    ensures
        r == (sep@.len() <= s@.len() - i && s@.skip(i as int).take(sep@.len() as int) == sep@),
{
    if sep.len() > s.len() - i {
        return false;
    }
    let mut k: usize = 0;
    while k < sep.len()
        invariant
            i <= s@.len() <= usize::MAX,
            sep@.len() <= s@.len() - i,
            k <= sep@.len(),
            forall|j: int| 0 <= j < k ==> s@[i + j] == sep@[j],
        decreases sep@.len() - k,
    {
        if s[i + k] != sep[k] {
            assert(s@.skip(i as int).take(sep@.len() as int)[k as int] != sep@[k as int]);
            return false;
        }
        k = k + 1;
    }
    assert(s@.skip(i as int).take(sep@.len() as int) =~= sep@);
    true
}

/// Cuts `line` at each occurrence of `sep`, as `str::split` does.
pub fn split_on(line: &str, sep: &str) -> (r: Vec<String>)
    requires
        sep@.len() > 0,
    ensures
        views(r@) == split(line@, sep@),
        r@.len() >= 1,
{
    let s = chars_of(line);
    let p = chars_of(sep);
    let len = s.len();
    let mut pieces: Vec<String> = Vec::new();
    let mut start: usize = 0;
    let mut i: usize = 0;
    assert(s@.skip(0) =~= s@);
    assert(s@.subrange(0, 0) =~= Seq::<char>::empty());
    while i < len
        invariant
            s@ == line@,
            p@ == sep@,
            p@.len() > 0,
            len == s@.len(),
            start <= i <= len,
            views(pieces@) + split_after(s@.skip(i as int), p@, s@.subrange(start as int, i as int))
                == split(line@, sep@),
        decreases len - i,
    {
        let ghost cur = s@.subrange(start as int, i as int);
        let ghost before = views(pieces@);
        if occurs_at(&s, i, &p) {
            let piece = String::from_str(line.substring_char(start, i));
            pieces.push(piece);
            proof {
                assert(s@.skip(i as int).skip(p@.len() as int) =~= s@.skip(i + p@.len()));
                assert(views(pieces@) =~= before.push(cur));
                assert(s@.subrange((i + p@.len()) as int, (i + p@.len()) as int)
                    =~= Seq::<char>::empty());
                assert(views(pieces@) + split_after(
                    s@.skip(i + p@.len()),
                    p@,
                    Seq::<char>::empty(),
                ) =~= before + split_after(s@.skip(i as int), p@, cur));
            }
            i = i + p.len();
            start = i;
        } else {
            proof {
                assert(s@.skip(i as int).drop_first() =~= s@.skip(i + 1));
                assert(s@.skip(i as int)[0] == s@[i as int]);
                assert(cur.push(s@[i as int]) =~= s@.subrange(start as int, i + 1));
            }
            i = i + 1;
        }
    }
    let ghost cur = s@.subrange(start as int, len as int);
    let ghost before = views(pieces@);
    let piece = String::from_str(line.substring_char(start, len));
    pieces.push(piece);
    proof {
        assert(s@.skip(len as int) =~= Seq::<char>::empty());
        assert(views(pieces@) =~= before.push(cur));
        assert(views(pieces@) =~= before + split_after(s@.skip(len as int), p@, cur));
    }
    pieces
}

impl Cmd {
    /// A copy of this command.
    pub fn duplicate(&self) -> (r: Cmd)
        ensures
            r@ == self@,
    {
        match self {
            Cmd::Invoke(i) => Cmd::Invoke(Invoke { binary: i.binary.clone(), args: i.args.duplicate() }),
            Cmd::Builtin(Builtin::Exit(code)) => Cmd::Builtin(Builtin::Exit(*code)),
            Cmd::Builtin(Builtin::Cd(path)) => Cmd::Builtin(Builtin::Cd(path.clone())),
        }
    }

    /// Reads the command of one fragment: `exit`, `cd <dir>`, or a program
    /// with its arguments.
    pub fn try_from(line: &str) -> (r: Result<Cmd, Error>)
        ensures
            match r {
                Ok(c) => parse_cmd(line@) == Ok::<CmdView, ErrorView>(c@),
                Err(e) => parse_cmd(line@) == Err::<CmdView, ErrorView>(e@),
            },
    {
        let mut args = LineIter::from(line);
        let binary = match args.next() {
            Some(b) => b,
            None => return Err(Error::EmptyLine),
        };
        proof {
            reveal_strlit("exit");
            reveal_strlit("cd");
        }
        if binary == String::from_str("exit") {
            assert("exit"@ =~= exit_word());
            Ok(Cmd::Builtin(Builtin::Exit(0)))
        } else if binary == String::from_str("cd") {
            assert("cd"@ =~= cd_word());
            match args.next() {
                Some(path) => Ok(Cmd::Builtin(Builtin::Cd(path))),
                None => Err(Error::NoDir),
            }
        } else {
            assert("exit"@ =~= exit_word());
            assert("cd"@ =~= cd_word());
            Ok(Cmd::Invoke(Invoke { binary, args }))
        }
    }
}

/// For every fragment made of words and single spaces whose first word names
/// no builtin, the command read from it is the program named by the first
/// word, with every other word, in order, as its arguments.
pub proof fn lemma_command_of_joined(ws: Seq<Seq<char>>)
    requires
        ws.len() > 0,
        forall|i: int| 0 <= i < ws.len() ==> is_word(#[trigger] ws[i]),
        ws[0] != exit_word(),
        ws[0] != cd_word(),
    ensures
        parse_cmd(join_words(ws)) == Ok::<CmdView, ErrorView>(CmdView::Invoke(ws[0], ws.drop_first())),
{
    lemma_words_of_joined(ws);
}

/// Parsing depends on the line alone: the same line always gives the same
/// expression tree, or the same error.
pub proof fn lemma_parse_deterministic(line: Seq<char>, again: Seq<char>)
    requires
        again == line,
    ensures
        parse(again) == parse(line),
{
}

/// The `&&` operator as characters.
pub open spec fn and_word() -> Seq<char> {
    seq!['&', '&']
}

/// The `;` operator as characters.
pub open spec fn semicolon_word() -> Seq<char> {
    seq![';']
}

/// The commands of a list of fragments, or the error of the first fragment
/// that holds none.
pub open spec fn parse_cmds(frags: Seq<Seq<char>>) -> Result<Seq<CmdView>, ErrorView>
    decreases frags.len(),
{
    if frags.len() == 0 {
        Ok(seq![])
    } else {
        match parse_cmd(frags[0]) {
            Err(e) => Err(e),
            Ok(c) => match parse_cmds(frags.drop_first()) {
                Err(e) => Err(e),
                Ok(cs) => Ok(seq![c] + cs),
            },
        }
    }
}

/// Commands joined by `&&`, grouped to the right; a single command stands alone.
pub open spec fn and_chain(cs: Seq<CmdView>) -> ExprView
    decreases cs.len(),
{
    if cs.len() <= 1 {
        ExprView::Leaf(cs[0])
    } else {
        ExprView::Node(Op::And, Box::new(ExprView::Leaf(cs[0])), Box::new(and_chain(cs.drop_first())))
    }
}

/// Expressions joined by `;`, grouped to the right; a single one stands alone.
pub open spec fn semicolon_chain(es: Seq<ExprView>) -> ExprView
    decreases es.len(),
{
    if es.len() <= 1 {
        es[0]
    } else {
        ExprView::Node(Op::Semicolon, Box::new(es[0]), Box::new(semicolon_chain(es.drop_first())))
    }
}

/// The `&&` chains of a list of statements, or the error of the first
/// fragment that holds no command.
pub open spec fn parse_stmts(stmts: Seq<Seq<char>>) -> Result<Seq<ExprView>, ErrorView>
    decreases stmts.len(),
{
    if stmts.len() == 0 {
        Ok(seq![])
    } else {
        match parse_cmds(split(stmts[0], and_word())) {
            Err(e) => Err(e),
            Ok(cs) => match parse_stmts(stmts.drop_first()) {
                Err(e) => Err(e),
                Ok(es) => Ok(seq![and_chain(cs)] + es),
            },
        }
    }
}

/// The expression of a line: statements cut at `;`, each cut at `&&` into
/// commands; `&&` binds tighter than `;`, and both group to the right.
pub open spec fn parse(line: Seq<char>) -> Result<ExprView, ErrorView> {
    match parse_stmts(split(line, semicolon_word())) {
        Err(e) => Err(e),
        Ok(es) => Ok(semicolon_chain(es)),
    }
}

/// `xs` in front of the list in `r`, if `r` holds one.
pub open spec fn prepend<T>(xs: Seq<T>, r: Result<Seq<T>, ErrorView>) -> Result<Seq<T>, ErrorView> {
    match r {
        Err(e) => Err(e),
        Ok(ys) => Ok(xs + ys),
    }
}

/// The views of a list of commands.
pub open spec fn cmd_views(v: Seq<Cmd>) -> Seq<CmdView> {
    v.map_values(|c: Cmd| c@)
}

/// The views of a list of expressions.
pub open spec fn expr_views(v: Seq<Expression>) -> Seq<ExprView> {
    v.map_values(|e: Expression| e@)
}

impl Expression {
    /// Parses a whole line: statements cut at `;`, each cut at `&&` into
    /// commands; `&&` binds tighter than `;`, and both group to the right.
    /// Fails with the error of the first fragment that holds no command.
    pub fn try_from(line: &str) -> (r: Result<Expression, Error>)
        ensures
            match r {
                Ok(e) => parse(line@) == Ok::<ExprView, ErrorView>(e@),
                Err(err) => parse(line@) == Err::<ExprView, ErrorView>(err@),
            },
    {
        proof {
            reveal_strlit(";");
            reveal_strlit("&&");
            assert(";"@ =~= semicolon_word());
            assert("&&"@ =~= and_word());
        }
        let stmts = split_on(line, ";");
        let ghost ss = views(stmts@);
        let mut exprs: Vec<Expression> = Vec::new();
        let mut j: usize = 0;
        assert(ss.skip(0) =~= ss);
        assert(expr_views(exprs@) + Seq::<ExprView>::empty() =~= Seq::<ExprView>::empty());
        while j < stmts.len()
            invariant
                ss == views(stmts@),
                ss.len() == stmts@.len(),
                "&&"@ == and_word(),
                ss == split(line@, semicolon_word()),
                ss.len() >= 1,
                j <= ss.len(),
                exprs@.len() == j,
                parse_stmts(ss) == prepend(expr_views(exprs@), parse_stmts(ss.skip(j as int))),
            decreases ss.len() - j,
        {
            let frags = split_on(stmts[j].as_str(), "&&");
            let ghost fs = views(frags@);
            assert(ss[j as int] == stmts@[j as int]@);
            let mut cmds: Vec<Cmd> = Vec::new();
            let mut k: usize = 0;
            assert(fs.skip(0) =~= fs);
            assert(cmd_views(cmds@) =~= Seq::<CmdView>::empty());
            assert(Seq::<CmdView>::empty() + Seq::<CmdView>::empty() =~= Seq::<CmdView>::empty());
            while k < frags.len()
                invariant
                    fs == views(frags@),
                    fs.len() == frags@.len(),
                    j < ss.len(),
                    ss == split(line@, semicolon_word()),
                    parse_stmts(ss) == prepend(expr_views(exprs@), parse_stmts(ss.skip(j as int))),
                    fs == split(ss[j as int], and_word()),
                    fs.len() >= 1,
                    k <= fs.len(),
                    cmds@.len() == k,
                    parse_cmds(fs) == prepend(cmd_views(cmds@), parse_cmds(fs.skip(k as int))),
                decreases fs.len() - k,
            {
                assert(fs[k as int] == frags@[k as int]@);
                let ghost rest = fs.skip(k as int);
                assert(rest[0] == fs[k as int]);
                assert(rest.drop_first() =~= fs.skip(k + 1));
                match Cmd::try_from(frags[k].as_str()) {
                    Ok(c) => {
                        let ghost before = cmd_views(cmds@);
                        cmds.push(c);
                        proof {
                            assert(cmd_views(cmds@) =~= before.push(c@));
                            match parse_cmds(fs.skip(k + 1)) {
                                Ok(tail) => {
                                    assert(before + (seq![c@] + tail) =~= before.push(c@) + tail);
                                },
                                Err(_) => {},
                            }
                        }
                    },
                    Err(e) => {
                        proof {
                            let rs = ss.skip(j as int);
                            assert(rs[0] == ss[j as int]);
                            assert(parse_cmds(fs) == Err::<Seq<CmdView>, ErrorView>(e@));
                            assert(parse_stmts(rs) == Err::<Seq<ExprView>, ErrorView>(e@));
                        }
                        return Err(e);
                    },
                }
                k = k + 1;
            }
            proof {
                assert(fs.skip(k as int) =~= Seq::<Seq<char>>::empty());
                assert(cmd_views(cmds@) + Seq::<CmdView>::empty() =~= cmd_views(cmds@));
                assert(parse_cmds(fs) == Ok::<Seq<CmdView>, ErrorView>(cmd_views(cmds@)));
            }
            let e = Expression::build_and_expression(cmds);
            let ghost before = expr_views(exprs@);
            exprs.push(e);
            proof {
                let rest = ss.skip(j as int);
                assert(rest[0] == ss[j as int]);
                assert(rest.drop_first() =~= ss.skip(j + 1));
                assert(expr_views(exprs@) =~= before.push(e@));
                match parse_stmts(ss.skip(j + 1)) {
                    Ok(tail) => {
                        assert(before + (seq![e@] + tail) =~= before.push(e@) + tail);
                    },
                    Err(_) => {},
                }
            }
            j = j + 1;
        }
        proof {
            assert(ss.skip(j as int) =~= Seq::<Seq<char>>::empty());
            assert(expr_views(exprs@) + Seq::<ExprView>::empty() =~= expr_views(exprs@));
        }
        Ok(Expression::build_semicolon_expression(exprs))
    }

    /// Joins the commands with `&&`, grouped to the right.
    fn build_and_expression(cmds: Vec<Cmd>) -> (r: Expression)
        requires
            cmds@.len() >= 1,
        ensures
            r@ == and_chain(cmd_views(cmds@)),
    {
        let ghost all = cmd_views(cmds@);
        let mut cmds = cmds;
        let last = cmds.pop().unwrap();
        let mut acc = Expression::Cmd(last);
        proof {
            assert(all.skip(cmds@.len() as int) =~= seq![last@]);
        }
        while cmds.len() > 0
            invariant
                cmd_views(cmds@) == all.take(cmds@.len() as int),
                cmds@.len() < all.len(),
                acc@ == and_chain(all.skip(cmds@.len() as int)),
            decreases cmds@.len(),
        {
            let ghost n = cmds@.len();
            let ghost before = cmds@;
            let c = cmds.pop().unwrap();
            proof {
                assert(cmd_views(before)[n - 1] == before[n - 1]@);
                assert(all.take(n as int)[n - 1] == all[n - 1]);
                assert(c@ == all[n - 1]);
                assert(all.skip(n - 1).drop_first() =~= all.skip(n as int));
                assert(cmd_views(cmds@) =~= all.take(n - 1));
                assert(all.skip(n - 1)[0] == all[n - 1]);
                assert(and_chain(all.skip(n - 1)) == ExprView::Node(
                    Op::And,
                    Box::new(ExprView::Leaf(c@)),
                    Box::new(acc@),
                ));
            }
            let ghost cv = c@;
            let left = Expression::Cmd(c);
            assert(left@ == ExprView::Leaf(cv));
            acc = Expression::Compound(Box::new(Compound { op: Op::And, left, right: acc }));
        }
        proof {
            assert(all.skip(0) =~= all);
        }
        acc
    }

    /// Joins the expressions with `;`, grouped to the right.
    fn build_semicolon_expression(exprs: Vec<Expression>) -> (r: Expression)
        requires
            exprs@.len() >= 1,
        ensures
            r@ == semicolon_chain(expr_views(exprs@)),
    {
        let ghost all = expr_views(exprs@);
        let mut exprs = exprs;
        let mut acc = exprs.pop().unwrap();
        proof {
            assert(all.skip(exprs@.len() as int) =~= seq![acc@]);
        }
        while exprs.len() > 0
            invariant
                expr_views(exprs@) == all.take(exprs@.len() as int),
                exprs@.len() < all.len(),
                acc@ == semicolon_chain(all.skip(exprs@.len() as int)),
            decreases exprs@.len(),
        {
            let ghost n = exprs@.len();
            let ghost before = exprs@;
            let e = exprs.pop().unwrap();
            proof {
                assert(expr_views(before)[n - 1] == before[n - 1]@);
                assert(all.take(n as int)[n - 1] == all[n - 1]);
                assert(e@ == all[n - 1]);
                assert(all.skip(n - 1).drop_first() =~= all.skip(n as int));
                assert(expr_views(exprs@) =~= all.take(n - 1));
            }
            acc = Expression::Compound(Box::new(Compound { op: Op::Semicolon, left: e, right: acc }));
        }
        proof {
            assert(all.skip(0) =~= all);
        }
        acc
    }
}

} // verus!
