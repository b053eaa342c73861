//! The parser of the `application/linkset` grammar, proved to compute what
//! the grammar's specification in [`super::grammar`] says.

use vstd::prelude::*;

use crate::external::push_char;
use crate::model::ext_token::{is_tchar, is_tchar_exec};
use super::grammar::{ByteClass, EntryView, ParamView, ascii_chars, in_class, lemma_parse_link_value, lemma_parse_more_values, lemma_parse_param, lemma_quoted_body, lemma_run_end, parse_document, parse_ext_value, parse_link_value, parse_more_values, parse_param, parse_params, parse_quoted, parse_token, quoted_body, run_end};

verus! {

/// The value of a link parameter, as parsed: a plain value (token or
/// quoted string, escapes resolved) or an RFC 8187 ext-value.
#[derive(Debug)]
pub enum ParamValue {
    /// A token or the body of a quoted string.
    Plain(String),
    /// `charset'language'value-chars`, not yet decoded.
    Ext { charset: String, language: Option<String>, encoded: String },
}

impl View for ParamValue {
    type V = ParamView;

    open spec fn view(&self) -> ParamView {
        match self {
            ParamValue::Plain(s) => ParamView::Plain(s@),
            ParamValue::Ext { charset, language, encoded } => ParamView::Ext {
                charset: charset@,
                language: match language {
                    Some(l) => Some(l@),
                    None => None,
                },
                encoded: encoded@,
            },
        }
    }
}

/// The parameters' abstract values.
pub open spec fn params_view(v: Seq<(String, ParamValue)>) -> Seq<(Seq<char>, ParamView)> {
    v.map_values(|p: (String, ParamValue)| (p.0@, p.1@))
}

/// One parsed link-value.
#[derive(Debug)]
pub struct Entry {
    /// The target, as written between `<` and `>`.
    pub target: String,
    /// The parameters in order.
    pub params: Vec<(String, ParamValue)>,
}

impl View for Entry {
    type V = EntryView;

    open spec fn view(&self) -> EntryView {
        EntryView { target: self.target@, params: params_view(self.params@) }
    }
}

/// The entries' abstract values.
pub open spec fn entries_view(v: Seq<Entry>) -> Seq<EntryView> {
    v.map_values(|e: Entry| e@)
}

fn in_class_exec(c: ByteClass, b: u8) -> (r: bool)
    ensures
        r == in_class(c, b),
{
    match c {
        ByteClass::Space => b == 32 || b == 9 || b == 13 || b == 10,
        ByteClass::Tchar => is_tchar_exec(b as char),
        ByteClass::UriByte => b < 128 && b != 62,
        ByteClass::CharsetByte => is_tchar_exec(b as char) && b != 39,
        ByteClass::LanguageByte => b < 128 && b != 39,
        ByteClass::ValueByte => b < 128 && !(b == 32 || b == 9 || b == 10 || b == 12 || b == 13) && b != 59 && b != 44,
    }
}

fn run_end_exec(s: &[u8], i: usize, c: ByteClass) -> (r: usize)
    requires
        i <= s@.len(),
    ensures
        r as int == run_end(s@, i as int, c),
        i <= r <= s@.len(),
        forall|k: int| i <= k < r ==> #[trigger] s@[k] < 128,
{
    let mut j = i;
    while j < s.len() && in_class_exec(c, s[j])
        invariant
            i <= j <= s@.len(),
            run_end(s@, i as int, c) == run_end(s@, j as int, c),
            forall|k: int| i <= k < j ==> #[trigger] s@[k] < 128,
        decreases s@.len() - j,
    {
        proof {
            lemma_in_class_ascii(c, s@[j as int]);
        }
        j = j + 1;
    }
    j
}

/// Every class holds ASCII bytes only.
proof fn lemma_in_class_ascii(c: ByteClass, b: u8)
    requires
        in_class(c, b),
    ensures
        b < 128,
{
    if b >= 128 {
        assert((b as char) as u32 == b as u32);
        assert(!is_tchar(b as char));
    }
}

/// The characters of the ASCII bytes `s[i..j]`.
fn ascii_string(s: &[u8], i: usize, j: usize) -> (r: String)
    requires
        i <= j <= s@.len(),
        forall|k: int| i <= k < j ==> #[trigger] s@[k] < 128,
    ensures
        r@ == ascii_chars(s@.subrange(i as int, j as int)),
{
    let mut r = String::new();
    let mut k = i;
    while k < j
        invariant
            i <= k <= j <= s@.len(),
            r@ == ascii_chars(s@.subrange(i as int, k as int)),
        decreases j - k,
    {
        push_char(&mut r, s[k] as char);
        assert(ascii_chars(s@.subrange(i as int, k + 1)) =~= ascii_chars(s@.subrange(i as int, k as int)).push(s@[k as int] as char));
        k = k + 1;
    }
    r
}

fn quoted_exec(s: &[u8], i: usize) -> (r: Option<(String, usize)>)
    requires
        i <= s@.len(),
    ensures
        match r {
            Some((v, e)) => parse_quoted(s@, i as int) == Some((v@, e as int)),
            None => parse_quoted(s@, i as int) is None,
        },
{
    if !(i < s.len() && s[i] == 34) {
        return None;
    }
    let ghost start = (i + 1) as int;
    let mut acc = String::new();
    let mut j = i + 1;
    proof {
        lemma_quoted_body(s@, start);
    }
    loop
        invariant
            i + 1 <= j <= s@.len(),
            i < s@.len(),
            s@[i as int] == 34,
            start == i + 1,
            acc@ + quoted_body(s@, j as int).0 == quoted_body(s@, start).0,
            quoted_body(s@, j as int).1 == quoted_body(s@, start).1,
        decreases s@.len() - j,
    {
        if j < s.len() && j + 1 < s.len() && s[j] == 92 && s[j + 1] < 128 {
            let ghost rest = quoted_body(s@, j + 2);
            assert(quoted_body(s@, j as int).0 == seq![s@[j + 1] as char] + rest.0);
            push_char(&mut acc, s[j + 1] as char);
            assert(acc@ + rest.0 =~= quoted_body(s@, start).0);
            j = j + 2;
        } else if j < s.len() && s[j] != 34 && s[j] != 92 && s[j] < 128 {
            let ghost rest = quoted_body(s@, j + 1);
            assert(quoted_body(s@, j as int).0 == seq![s@[j as int] as char] + rest.0);
            push_char(&mut acc, s[j] as char);
            assert(acc@ + rest.0 =~= quoted_body(s@, start).0);
            j = j + 1;
        } else {
            assert(quoted_body(s@, j as int).0 =~= Seq::<char>::empty());
            assert(quoted_body(s@, j as int).1 == j);
            assert(acc@ =~= quoted_body(s@, start).0);
            if j < s.len() && s[j] == 34 {
                return Some((acc, j + 1));
            } else {
                return None;
            }
        }
    }
}

fn token_exec(s: &[u8], i: usize) -> (r: Option<(String, usize)>)
    requires
        i <= s@.len(),
    ensures
        match r {
            Some((v, e)) => parse_token(s@, i as int) == Some((v@, e as int)),
            None => parse_token(s@, i as int) is None,
        },
{
    let e = run_end_exec(s, i, ByteClass::Tchar);
    if e > i {
        Some((ascii_string(s, i, e), e))
    } else {
        None
    }
}

fn ext_value_exec(s: &[u8], i: usize) -> (r: Option<(ParamValue, usize)>)
    requires
        i <= s@.len(),
    ensures
        match r {
            Some((v, e)) => parse_ext_value(s@, i as int) == Some((v@, e as int)),
            None => parse_ext_value(s@, i as int) is None,
        },
{
    let c = run_end_exec(s, i, ByteClass::CharsetByte);
    if !(i < c && c < s.len() && s[c] == 39) {
        return None;
    }
    let l = run_end_exec(s, c + 1, ByteClass::LanguageByte);
    if !(l < s.len() && s[l] == 39) {
        return None;
    }
    let e = run_end_exec(s, l + 1, ByteClass::ValueByte);
    let language = if l > c + 1 {
        Some(ascii_string(s, c + 1, l))
    } else {
        None
    };
    let v = ParamValue::Ext { charset: ascii_string(s, i, c), language, encoded: ascii_string(s, l + 1, e) };
    Some((v, e))
}

fn param_exec(s: &[u8], i: usize) -> (r: Option<((String, ParamValue), usize)>)
    requires
        i <= s@.len(),
    ensures
        match r {
            Some((p, e)) => parse_param(s@, i as int) == Some(((p.0@, p.1@), e as int)),
            None => parse_param(s@, i as int) is None,
        },
{
    let (name, t) = match token_exec(s, i) {
        Some(x) => x,
        None => {
            return None;
        },
    };
    if !(t < s.len() && s[t] == 61) {
        return None;
    }
    proof {
        lemma_run_end(s@, i as int, ByteClass::Tchar);
    }
    let star = {
        let cs = crate::strs::chars_of(name.as_str());
        cs[cs.len() - 1] == '*'
    };
    if star {
        match ext_value_exec(s, t + 1) {
            Some((v, e)) => Some(((name, v), e)),
            None => None,
        }
    } else {
        match quoted_exec(s, t + 1) {
            Some((v, e)) => Some(((name, ParamValue::Plain(v)), e)),
            None => match token_exec(s, t + 1) {
                Some((v, e)) => Some(((name, ParamValue::Plain(v)), e)),
                None => None,
            },
        }
    }
}

fn params_exec(s: &[u8], i: usize) -> (r: (Vec<(String, ParamValue)>, usize))
    requires
        i <= s@.len(),
    ensures
        parse_params(s@, i as int) == (params_view(r.0@), r.1 as int),
{
    let mut acc: Vec<(String, ParamValue)> = Vec::new();
    let mut j = i;
    loop
        invariant
            i <= j <= s@.len(),
            params_view(acc@) + parse_params(s@, j as int).0 == parse_params(s@, i as int).0,
            parse_params(s@, j as int).1 == parse_params(s@, i as int).1,
        decreases s@.len() - j,
    {
        let k = run_end_exec(s, j, ByteClass::Space);
        if !(k < s.len() && s[k] == 59) {
            assert(parse_params(s@, j as int).0 =~= Seq::<(Seq<char>, ParamView)>::empty());
            assert(params_view(acc@) =~= parse_params(s@, i as int).0);
            return (acc, j);
        }
        let m = run_end_exec(s, k + 1, ByteClass::Space);
        proof {
            lemma_parse_param(s@, m as int);
        }
        match param_exec(s, m) {
            Some((p, n)) => {
                let ghost rest = parse_params(s@, n as int);
                let ghost pv = (p.0@, p.1@);
                assert(parse_params(s@, j as int).0 == seq![pv] + rest.0);
                acc.push(p);
                assert(params_view(acc@) =~= params_view(acc@.drop_last()).push(pv));
                assert(params_view(acc@) + rest.0 =~= parse_params(s@, i as int).0);
                j = n;
            },
            None => {
                assert(parse_params(s@, j as int).0 =~= Seq::<(Seq<char>, ParamView)>::empty());
                assert(params_view(acc@) =~= parse_params(s@, i as int).0);
                return (acc, j);
            },
        }
    }
}

fn link_value_exec(s: &[u8], i: usize) -> (r: Option<(Entry, usize)>)
    requires
        i <= s@.len(),
    ensures
        match r {
            Some((e, n)) => parse_link_value(s@, i as int) == Some((e@, n as int)),
            None => parse_link_value(s@, i as int) is None,
        },
{
    if !(i < s.len() && s[i] == 60) {
        return None;
    }
    let e = run_end_exec(s, i + 1, ByteClass::UriByte);
    if !(e < s.len() && s[e] == 62) {
        return None;
    }
    let target = ascii_string(s, i + 1, e);
    let (params, n) = params_exec(s, e + 1);
    Some((Entry { target, params }, n))
}

fn more_values_exec(s: &[u8], i: usize) -> (r: (Vec<Entry>, usize))
    requires
        i <= s@.len(),
    ensures
        parse_more_values(s@, i as int) == (entries_view(r.0@), r.1 as int),
{
    let mut acc: Vec<Entry> = Vec::new();
    let mut j = i;
    loop
        invariant
            i <= j <= s@.len(),
            entries_view(acc@) + parse_more_values(s@, j as int).0 == parse_more_values(s@, i as int).0,
            parse_more_values(s@, j as int).1 == parse_more_values(s@, i as int).1,
        decreases s@.len() - j,
    {
        let k = run_end_exec(s, j, ByteClass::Space);
        if !(k < s.len() && s[k] == 44) {
            assert(parse_more_values(s@, j as int).0 =~= Seq::<EntryView>::empty());
            assert(entries_view(acc@) =~= parse_more_values(s@, i as int).0);
            return (acc, j);
        }
        let m = run_end_exec(s, k + 1, ByteClass::Space);
        proof {
            lemma_parse_link_value(s@, m as int);
        }
        match link_value_exec(s, m) {
            Some((e, n)) => {
                let ghost rest = parse_more_values(s@, n as int);
                let ghost ev = e@;
                assert(parse_more_values(s@, j as int).0 == seq![ev] + rest.0);
                acc.push(e);
                assert(entries_view(acc@) =~= entries_view(acc@.drop_last()).push(ev));
                assert(entries_view(acc@) + rest.0 =~= parse_more_values(s@, i as int).0);
                j = n;
            },
            None => {
                assert(parse_more_values(s@, j as int).0 =~= Seq::<EntryView>::empty());
                assert(entries_view(acc@) =~= parse_more_values(s@, i as int).0);
                return (acc, j);
            },
        }
    }
}

/// Parse a whole document into its link-values; `None` when the grammar
/// does not accept it.
pub fn parse_all_entries(s: &[u8]) -> (r: Option<Vec<Entry>>)
    ensures
        match r {
            Some(es) => parse_document(s@) == Some(entries_view(es@)),
            None => parse_document(s@) is None,
        },
{
    let j = run_end_exec(s, 0, ByteClass::Space);
    proof {
        lemma_parse_link_value(s@, j as int);
    }
    let (es, p) = match link_value_exec(s, j) {
        None => {
            let v: Vec<Entry> = Vec::new();
            assert(entries_view(v@) =~= Seq::<EntryView>::empty());
            (v, j)
        },
        Some((e, n)) => {
            let ghost ev = e@;
            proof {
                lemma_parse_more_values(s@, n as int);
            }
            let (rest, p) = more_values_exec(s, n);
            let mut v: Vec<Entry> = Vec::new();
            v.push(e);
            let mut rest = rest;
            let ghost rv = entries_view(rest@);
            v.append(&mut rest);
            assert(entries_view(v@) =~= seq![ev] + rv);
            (v, p)
        },
    };
    if run_end_exec(s, p, ByteClass::Space) == s.len() {
        Some(es)
    } else {
        None
    }
}

} // verus!
