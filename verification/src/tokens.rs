//! Tokenizer for in-string markup: game strings embed `~x~` tags for colors,
//! icons and line breaks, and the display layer needs them split from the
//! plain text around them.

use vstd::prelude::*;

verus! {

/// One piece of a string: either plain text or the contents of a `~…~` tag.
#[derive(Debug, PartialEq)]
pub enum GXTToken {
    /// A run of plain text.
    Text(String),
    /// The contents of one markup tag, without the tildes.
    Tag(String),
}

/// The view of a token: the same shape over character sequences.
pub enum GXTTokenView {
    /// A run of plain text.
    Text(Seq<char>),
    /// The contents of one markup tag.
    Tag(Seq<char>),
}

impl View for GXTToken {
    type V = GXTTokenView;

    open spec fn view(&self) -> GXTTokenView {
        match self {
            GXTToken::Text(s) => GXTTokenView::Text(s@),
            GXTToken::Tag(s) => GXTTokenView::Tag(s@),
        }
    }
}

/// The views of a token list.
pub open spec fn spec_tokens_view(ts: Seq<GXTToken>) -> Seq<GXTTokenView> {
    ts.map_values(|t: GXTToken| t@)
}

/// One step per character: the scanner keeps the finished tokens and the
/// token being built.  A buffer that starts with `~` is an open tag, closed
/// by the next `~`; any other buffer is plain text, ended by a `~`.  Whatever
/// remains at the end — even an unterminated tag or an empty buffer — is
/// emitted as text.
pub open spec fn spec_split_rec(
    s: Seq<char>,
    done: Seq<GXTTokenView>,
    cur: Seq<char>,
) -> Seq<GXTTokenView>
    decreases s.len(),
{
    if s.len() == 0 {
        done.push(GXTTokenView::Text(cur))
    } else {
        let e = s[0];
        if cur.len() == 0 {
            spec_split_rec(s.drop_first(), done, seq![e])
        } else if cur[0] == '~' {
            if e == '~' {
                spec_split_rec(
                    s.drop_first(),
                    done.push(GXTTokenView::Tag(cur.drop_first())),
                    Seq::<char>::empty(),
                )
            } else {
                spec_split_rec(s.drop_first(), done, cur.push(e))
            }
        } else {
            if e == '~' {
                spec_split_rec(s.drop_first(), done.push(GXTTokenView::Text(cur)), seq!['~'])
            } else {
                spec_split_rec(s.drop_first(), done, cur.push(e))
            }
        }
    }
}

/// The tokens of a whole string.
pub open spec fn spec_split_tokens(s: Seq<char>) -> Seq<GXTTokenView> {
    spec_split_rec(s, Seq::<GXTTokenView>::empty(), Seq::<char>::empty())
}

/// Splits a string into plain-text runs and `~…~` tag contents.
pub fn split_into_tokens(string: &str) -> (r: Result<Vec<GXTToken>, String>)
    ensures
        r matches Ok(ts) && spec_tokens_view(ts@) == spec_split_tokens(string@),
{
    let mut res: Vec<GXTToken> = Vec::new();
    let mut current_token = String::new();
    let n = string.unicode_len();
    let mut i: usize = 0;
    proof {
        assert(string@.skip(0) =~= string@);
        assert(spec_tokens_view(res@) =~= Seq::<GXTTokenView>::empty());
    }
    while i < n
        invariant
            n == string@.len(),
            i <= n,
            spec_split_rec(string@.skip(i as int), spec_tokens_view(res@), current_token@)
                == spec_split_tokens(string@),
        decreases n - i,
    {
        let e = string.get_char(i);
        proof {
            assert(string@.skip(i as int)[0] == string@[i as int]);
            assert(string@.skip(i as int).drop_first() =~= string@.skip(i as int + 1));
        }
        let cur_len = current_token.unicode_len();
        if cur_len == 0 {
            current_token.push(e);
            proof {
                assert(current_token@ =~= seq![e]);
            }
        } else {
            let first = current_token.as_str().get_char(0);
            if first == '~' {
                if e == '~' {
                    let tag = current_token.as_str().substring_char(1, cur_len);
                    let ghost old_res = spec_tokens_view(res@);
                    let ghost old_cur = current_token@;
                    res.push(GXTToken::Tag(tag.to_owned()));
                    proof {
                        assert(tag@ =~= old_cur.drop_first());
                        assert(spec_tokens_view(res@) =~= old_res.push(
                            GXTTokenView::Tag(old_cur.drop_first()),
                        ));
                    }
                    current_token = String::new();
                }  else {
                    current_token.push(e);
                }
            } else {
                if e == '~' {
                    let ghost old_res = spec_tokens_view(res@);
                    let ghost old_cur = current_token@;
                    let finished = current_token;
                    res.push(GXTToken::Text(finished));
                    proof {
                        assert(spec_tokens_view(res@) =~= old_res.push(
                            GXTTokenView::Text(old_cur),
                        ));
                    }
                    current_token = String::new();
                    current_token.push('~');
                    proof {
                        assert(current_token@ =~= seq!['~']);
                    }
                } else {
                    current_token.push(e);
                }
            }
        }
        i = i + 1;
    }
    proof {
        assert(string@.skip(n as int) =~= Seq::<char>::empty());
        let ghost old_res = spec_tokens_view(res@);
        assert(spec_split_tokens(string@) == old_res.push(GXTTokenView::Text(current_token@)));
    }
    let ghost old_res = spec_tokens_view(res@);
    let ghost old_cur = current_token@;
    res.push(GXTToken::Text(current_token));
    proof {
        assert(spec_tokens_view(res@) =~= old_res.push(GXTTokenView::Text(old_cur)));
    }
    Ok(res)
}

} // verus!
