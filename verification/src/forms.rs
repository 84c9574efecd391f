//! Form bodies of `application/x-www-form-urlencoded` requests: the
//! `name=value&name=value` grammar and the percent-escape decoding.

use vstd::prelude::*;

use vstd::utf8::{decode_utf8, valid_utf8};

verus! {

/// One field of a submitted form.
#[derive(Debug)]
pub struct Form {
    /// The `name` field in an html input.
    pub name: Vec<u8>,
    /// The value associated with the input field.
    pub value: Vec<u8>,
}

/// Whether `b` is an ASCII hex digit.
pub open spec fn is_hex_digit(b: u8) -> bool {
    (48 <= b <= 57) || (65 <= b <= 70) || (97 <= b <= 102)
}

/// The value of the hex digit `b`.
pub open spec fn hex_digit_val(b: u8) -> u8 {
    if 48 <= b <= 57 {
        (b - 48) as u8
    } else if 65 <= b <= 70 {
        (b - 55) as u8
    } else if 97 <= b <= 102 {
        (b - 87) as u8
    } else {
        0
    }
}

/// What decoding the escapes of `s` yields: `%XX` becomes the byte the two
/// hex digits spell (a decoded carriage return is dropped), `+` becomes a
/// space, anything else stays. `None` when a `%` lacks two hex digits.
pub open spec fn percent_decode_spec(s: Seq<u8>) -> Option<Seq<u8>>
    decreases s.len(),
{
    if s.len() == 0 {
        Some(Seq::empty())
    } else if s[0] == 37 {  // '%'
        if s.len() < 3 {
            None
        } else if !is_hex_digit(s[1]) || !is_hex_digit(s[2]) {
            None
        } else {
            let v = (hex_digit_val(s[1]) * 16 + hex_digit_val(s[2])) as u8;
            match percent_decode_spec(s.skip(3)) {
                None => None,
                Some(r) => if v == 13 {  // '\r'
                    Some(r)
                } else {
                    Some(seq![v] + r)
                },
            }
        }
    } else if s[0] == 43 {  // '+'
        match percent_decode_spec(s.skip(1)) {
            None => None,
            Some(r) => Some(seq![32u8] + r),
        }
    } else {
        match percent_decode_spec(s.skip(1)) {
            None => None,
            Some(r) => Some(seq![s[0]] + r),
        }
    }
}

fn hex_val(b: u8) -> (r: Option<u8>)
    ensures
        r is Some <==> is_hex_digit(b),
        r is Some ==> r->Some_0 == hex_digit_val(b),
{
    if 48 <= b && b <= 57 {
        Some(b - 48)
    } else if 65 <= b && b <= 70 {
        Some(b - 55)
    } else if 97 <= b && b <= 102 {
        Some(b - 87)
    } else {
        None
    }
}

/// Decodes the escapes that `application/x-www-form-urlencoded` data
/// carries: `%XX` escapes and `+` for spaces; decoded carriage returns are
/// dropped. Fails exactly when a `%` is not followed by two hex digits,
/// also at the end of the input.
pub fn replace_special_characters(data: &[u8]) -> (r: Result<Vec<u8>, String>)
    ensures
        match percent_decode_spec(data@) {
            Some(d) => r is Ok && r->Ok_0@ == d,
            None => r is Err,
        },
{
    let n = data.len();
    let mut out: Vec<u8> = Vec::new();
    let mut i: usize = 0;
    proof {
        assert(data@.skip(0) =~= data@);
        match percent_decode_spec(data@) {
            Some(rest) => {
                assert(out@ + rest =~= rest);
            },
            None => {},
        }
    }
    while i < n
        invariant
            n == data@.len(),
            0 <= i <= n,
            match percent_decode_spec(data@.skip(i as int)) {
                Some(rest) => percent_decode_spec(data@) == Some(out@ + rest),
                None => percent_decode_spec(data@) is None,
            },
        decreases n - i,
    {
        let ghost pre = data@.skip(i as int);
        let c = data[i];
        if c == 37 {
            if n - i < 3 {
                proof {
                    assert(pre.len() < 3);
                }
                return Err("Unexpected end of input!".to_owned());
            }
            let h = match hex_val(data[i + 1]) {
                Some(h) => h,
                None => {
                    proof {
                        assert(pre[1] == data@[i as int + 1]);
                    }
                    return Err("Error parsing hex value!".to_owned());
                },
            };
            let l = match hex_val(data[i + 2]) {
                Some(l) => l,
                None => {
                    proof {
                        assert(pre[1] == data@[i as int + 1]);
                        assert(pre[2] == data@[i as int + 2]);
                    }
                    return Err("Error parsing hex value!".to_owned());
                },
            };
            let v = h * 16 + l;
            if v != 13 {
                out.push(v);
            }
            i = i + 3;
            proof {
                assert(pre[1] == data@[i as int - 2]);
                assert(pre[2] == data@[i as int - 1]);
                assert(pre.skip(3) =~= data@.skip(i as int));
                match percent_decode_spec(data@.skip(i as int)) {
                    Some(rest) => {
                        if v == 13 {
                        } else {
                            assert(out@ + rest =~= out@.subrange(0, out@.len() - 1) + (seq![v]
                                + rest));
                        }
                    },
                    None => {},
                }
            }
        } else {
            if c == 43 {
                out.push(32);
            } else {
                out.push(c);
            }
            i = i + 1;
            proof {
                assert(pre.skip(1) =~= data@.skip(i as int));
                match percent_decode_spec(data@.skip(i as int)) {
                    Some(rest) => {
                        let b: u8 = if c == 43 {
                            32
                        } else {
                            c
                        };
                        assert(out@ + rest =~= out@.subrange(0, out@.len() - 1) + (seq![b]
                            + rest));
                    },
                    None => {},
                }
            }
        }
    }
    proof {
        assert(data@.skip(i as int) =~= Seq::<u8>::empty());
        assert(out@ + Seq::<u8>::empty() =~= out@);
    }
    Ok(out)
}


/// The first position at or after `i` where byte `b` occurs in `s`.
pub open spec fn find_byte(s: Seq<u8>, b: u8, i: int) -> Option<int>
    decreases s.len() - i,
    when 0 <= i <= s.len()
{
    if i == s.len() {
        None
    } else if s[i] == b {
        Some(i)
    } else {
        find_byte(s, b, i + 1)
    }
}

fn find_byte_from(data: &[u8], b: u8, from: usize) -> (r: Option<usize>)
    requires
        from <= data@.len(),
    ensures
        match r {
            Some(j) => find_byte(data@, b, from as int) == Some(j as int) && from <= j
                < data@.len(),
            None => find_byte(data@, b, from as int) is None,
        },
{
    let n = data.len();
    let mut i: usize = from;
    while i < n
        invariant
            n == data@.len(),
            from <= i <= n,
            find_byte(data@, b, from as int) == find_byte(data@, b, i as int),
        decreases n - i,
    {
        if data[i] == b {
            return Some(i);
        }
        i = i + 1;
    }
    None
}

fn bytes_slice(data: &[u8], from: usize, to: usize) -> (r: Vec<u8>)
    requires
        from <= to <= data@.len(),
    ensures
        r@ == data@.subrange(from as int, to as int),
{
    let mut r: Vec<u8> = Vec::new();
    let mut i: usize = from;
    while i < to
        invariant
            from <= i <= to <= data@.len(),
            r@ == data@.subrange(from as int, i as int),
        decreases to - i,
    {
        r.push(data[i]);
        i = i + 1;
        proof {
            assert(r@ =~= data@.subrange(from as int, i as int));
        }
    }
    r
}

/// The `name=value` pairs of a form body from position `i` on: a name is
/// one or more bytes up to a `=`, the value runs to the next `&` (consumed)
/// or to the end. A trailing rest that fits no pair is dropped.
pub open spec fn form_pairs_from(s: Seq<u8>, i: int) -> Seq<(Seq<u8>, Seq<u8>)>
    decreases s.len() - i,
    when 0 <= i <= s.len()
{
    match find_byte(s, 61, i) {  // '='
        None => Seq::empty(),
        Some(e) => if !(i < e < s.len()) {
            Seq::empty()
        } else {
            let name = s.subrange(i, e);
            match find_byte(s, 38, e + 1) {  // '&'
                None => seq![(name, s.subrange(e + 1, s.len() as int))],
                Some(a) => if !(e < a < s.len()) {
                    // never the case: a separator found lies past the `=`
                    seq![(name, s.subrange(e + 1, s.len() as int))]
                } else {
                    seq![(name, s.subrange(e + 1, a))] + form_pairs_from(s, a + 1)
                },
            }
        },
    }
}

/// The view of a list of forms: each field as its name and value bytes.
pub open spec fn forms_view(fs: Seq<Form>) -> Seq<(Seq<u8>, Seq<u8>)> {
    fs.map_values(|f: Form| (f.name@, f.value@))
}

fn form_go(data: &[u8], pos: usize) -> (r: Vec<Form>)
    requires
        pos <= data@.len(),
    ensures
        forms_view(r@) == form_pairs_from(data@, pos as int),
    decreases data@.len() - pos,
{
    let n = data.len();
    match find_byte_from(data, 61, pos) {
        None => {
            let r: Vec<Form> = Vec::new();
            proof {
                assert(forms_view(r@) =~= Seq::<(Seq<u8>, Seq<u8>)>::empty());
            }
            r
        },
        Some(e) => {
            if e == pos {
                let r: Vec<Form> = Vec::new();
                proof {
                    assert(forms_view(r@) =~= Seq::<(Seq<u8>, Seq<u8>)>::empty());
                }
                r
            } else {
                let name = bytes_slice(data, pos, e);
                match find_byte_from(data, 38, e + 1) {
                    None => {
                        let value = bytes_slice(data, e + 1, n);
                        let mut r: Vec<Form> = Vec::new();
                        r.push(Form { name, value });
                        proof {
                            assert(forms_view(r@) =~= form_pairs_from(data@, pos as int));
                        }
                        r
                    },
                    Some(a) => {
                        let value = bytes_slice(data, e + 1, a);
                        let rest = form_go(data, a + 1);
                        let ghost restv = rest@;
                        let mut r = rest;
                        r.insert(0, Form { name, value });
                        proof {
                            assert(forms_view(r@) =~= seq![
                                (data@.subrange(pos as int, e as int), data@.subrange(
                                    e as int + 1,
                                    a as int,
                                )),
                            ] + forms_view(restv));
                        }
                        r
                    },
                }
            }
        },
    }
}

/// Parses a form body into its fields, in order. Escapes are not decoded
/// here; `parse_form` does that.
pub fn form(data: &[u8]) -> (r: Vec<Form>)
    ensures
        forms_view(r@) == form_pairs_from(data@, 0),
{
    form_go(data, 0)
}

/// What decoding a pair list yields: every name percent-decoded and read
/// as UTF-8, every value percent-decoded; `None` as soon as one of the
/// three steps fails.
pub open spec fn decode_pairs_spec(ps: Seq<(Seq<u8>, Seq<u8>)>) -> Option<
    Seq<(Seq<char>, Seq<u8>)>,
>
    decreases ps.len(),
{
    if ps.len() == 0 {
        Some(Seq::empty())
    } else {
        match percent_decode_spec(ps[0].0) {
            None => None,
            Some(nb) => if !valid_utf8(nb) {
                None
            } else {
                match percent_decode_spec(ps[0].1) {
                    None => None,
                    Some(vb) => match decode_pairs_spec(ps.drop_first()) {
                        None => None,
                        Some(r) => Some(seq![(decode_utf8(nb), vb)] + r),
                    },
                }
            },
        }
    }
}

/// Folds decoded pairs into a map; a later field with the same name wins.
pub open spec fn form_map_of(s: Seq<(Seq<char>, Seq<u8>)>) -> Map<Seq<char>, Seq<u8>>
    decreases s.len(),
{
    if s.len() == 0 {
        Map::empty()
    } else {
        form_map_of(s.drop_last()).insert(s.last().0, s.last().1)
    }
}

/// The view of a list of owned, decoded fields.
pub open spec fn fields_view(ps: Seq<(String, Vec<u8>)>) -> Seq<(Seq<char>, Seq<u8>)> {
    ps.map_values(|p: (String, Vec<u8>)| (p.0@, p.1@))
}

/// The decoded fields of a form body: names bound to their value bytes.
pub struct FormMap {
    fields: Vec<(String, Vec<u8>)>,
}

impl View for FormMap {
    type V = Map<Seq<char>, Seq<u8>>;

    closed spec fn view(&self) -> Map<Seq<char>, Seq<u8>> {
        form_map_of(fields_view(self.fields@))
    }
}

proof fn lemma_fields_get(s: Seq<(Seq<char>, Seq<u8>)>, name: Seq<char>, i: int)
    requires
        0 <= i <= s.len(),
        forall|k: int| i <= k < s.len() ==> (#[trigger] s[k]).0 != name,
    ensures
        form_map_of(s).contains_key(name) == form_map_of(s.take(i)).contains_key(name),
        form_map_of(s).contains_key(name) ==> form_map_of(s)[name] == form_map_of(s.take(i))[name],
    decreases s.len() - i,
{
    if i == s.len() {
        assert(s.take(i) =~= s);
    } else {
        lemma_fields_get(s, name, i + 1);
        assert(s.take(i + 1).drop_last() =~= s.take(i));
        assert(s.take(i + 1).last() == s[i]);
    }
}

fn copy_bytes(v: &Vec<u8>) -> (r: Vec<u8>)
    ensures
        r@ == v@,
{
    let r = bytes_slice(v.as_slice(), 0, v.len());
    proof {
        assert(v@.subrange(0, v@.len() as int) =~= v@);
    }
    r
}

impl FormMap {
    /// Looks a field name up, returning its decoded value bytes.
    pub fn get(&self, name: &str) -> (r: Option<Vec<u8>>)
        ensures
            match r {
                Some(v) => self@.contains_key(name@) && v@ == self@[name@],
                None => !self@.contains_key(name@),
            },
    {
        let ghost fv = fields_view(self.fields@);
        let mut i: usize = self.fields.len();
        while i > 0
            invariant
                i <= self.fields@.len(),
                fv == fields_view(self.fields@),
                forall|k: int| i <= k < fv.len() ==> (#[trigger] fv[k]).0 != name@,
            decreases i,
        {
            i = i - 1;
            if crate::chars::str_eq(self.fields[i].0.as_str(), name) {
                let v = copy_bytes(&self.fields[i].1);
                proof {
                    lemma_fields_get(fv, name@, i as int + 1);
                    assert(fv.take(i as int + 1).drop_last() =~= fv.take(i as int));
                    assert(fv.take(i as int + 1).last() == fv[i as int]);
                    assert(form_map_of(fv.take(i as int + 1))[name@] == fv[i as int].1);
                }
                return Some(v);
            }
            proof {
                assert(fv[i as int].0 != name@);
            }
        }
        proof {
            lemma_fields_get(fv, name@, 0);
            assert(fv.take(0) =~= Seq::<(Seq<char>, Seq<u8>)>::empty());
        }
        None
    }
}

/// Reads decoded name bytes as text.
/// Relies on `str::from_utf8`: it succeeds exactly on valid UTF-8 input
/// and yields the string those bytes encode.
#[verifier::external_body]
fn utf8_to_string(v: &Vec<u8>) -> (r: Option<String>)
    ensures
        r is Some <==> valid_utf8(v@),
        r is Some ==> r->Some_0@ == decode_utf8(v@),
{
    match core::str::from_utf8(v.as_slice()) {
        Ok(s) => Some(s.to_owned()),
        Err(_) => None,
    }
}

/// Parses a form body and decodes it: each field's name is unescaped and
/// read as UTF-8, each value is unescaped; a later field with the same
/// name wins. Fails exactly when one of those steps fails.
pub fn parse_form(data: &[u8]) -> (r: Result<FormMap, String>)
    ensures
        match decode_pairs_spec(form_pairs_from(data@, 0)) {
            Some(ps) => r is Ok && r->Ok_0@ == form_map_of(ps),
            None => r is Err,
        },
{
    let fs = form(data);
    let ghost pairs = forms_view(fs@);
    let mut fields: Vec<(String, Vec<u8>)> = Vec::new();
    let ghost mut done = Seq::<(Seq<char>, Seq<u8>)>::empty();
    let mut k: usize = 0;
    proof {
        assert(pairs.skip(0) =~= pairs);
        match decode_pairs_spec(pairs) {
            Some(ps) => {
                assert(done + ps =~= ps);
            },
            None => {},
        }
    }
    while k < fs.len()
        invariant
            k <= fs@.len(),
            pairs == forms_view(fs@),
            pairs == form_pairs_from(data@, 0),
            pairs.len() == fs@.len(),
            forall|t: int| 0 <= t < pairs.len() ==> pairs[t] == (fs@[t].name@, fs@[t].value@),
            done.len() == fields@.len(),
            forall|t: int|
                0 <= t < done.len() ==> done[t] == (fields@[t].0@, fields@[t].1@),
            match decode_pairs_spec(pairs.skip(k as int)) {
                Some(ps) => decode_pairs_spec(pairs) == Some(done + ps),
                None => decode_pairs_spec(pairs) is None,
            },
        decreases fs@.len() - k,
    {
        let ghost rest = pairs.skip(k as int);
        proof {
            assert(rest[0] == pairs[k as int]);
            assert(rest[0] == (fs@[k as int].name@, fs@[k as int].value@));
        }
        let nb = match replace_special_characters(fs[k].name.as_slice()) {
            Ok(nb) => nb,
            Err(e) => {
                proof {
                    assert(decode_pairs_spec(rest) is None);
                }
                return Err(e);
            },
        };
        let ns = match utf8_to_string(&nb) {
            Some(ns) => ns,
            None => {
                proof {
                    assert(decode_pairs_spec(rest) is None);
                }
                return Err("Form name is not valid text!".to_owned());
            },
        };
        let vb = match replace_special_characters(fs[k].value.as_slice()) {
            Ok(vb) => vb,
            Err(e) => {
                proof {
                    assert(decode_pairs_spec(rest) is None);
                }
                return Err(e);
            },
        };
        fields.push((ns, vb));
        proof {
            done = done.push((ns@, vb@));
        }
        k = k + 1;
        proof {
            assert(rest[0] == pairs[k as int - 1]);
            assert(rest.drop_first() =~= pairs.skip(k as int));
            match decode_pairs_spec(pairs.skip(k as int)) {
                Some(ps) => {
                    assert(done + ps =~= done.drop_last() + (seq![(ns@, vb@)] + ps));
                },
                None => {},
            }
        }
    }
    proof {
        assert(pairs.skip(k as int) =~= Seq::<(Seq<u8>, Seq<u8>)>::empty());
        assert(done + Seq::<(Seq<char>, Seq<u8>)>::empty() =~= done);
        assert(fields_view(fields@) =~= done);
    }
    Ok(FormMap { fields })
}

} // verus!\n