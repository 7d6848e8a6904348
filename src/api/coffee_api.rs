//! The address of a page of the creator feed.

use vstd::prelude::*;

verus! {

/// The feed's address up to the page number.
pub const API_URL_PREFIX: &'static str =
    "https://app.buymeacoffee.com/api/v1/posts/creator/drumscribe?per_page=20&page=";

/// The feed's address after the page number.
pub const API_URL_SUFFIX: &'static str = "&filter_by=new";

/// The digit character for `d`, below ten.
pub open spec fn digit_char(d: nat) -> char {
    ('0' as u32 + d) as char
}

/// `n` written in decimal, without leading zeros.
pub open spec fn decimal(n: nat) -> Seq<char>
    decreases n,
{
    if n < 10 {
        seq![digit_char(n)]
    } else {
        decimal(n / 10).push(digit_char(n % 10))
    }
}

fn digit_text(d: usize) -> (r: &'static str)
    requires
        d < 10,
    ensures
        r@ == seq![digit_char(d as nat)],
{
    proof {
        reveal_strlit("0");
        reveal_strlit("1");
        reveal_strlit("2");
        reveal_strlit("3");
        reveal_strlit("4");
        reveal_strlit("5");
        reveal_strlit("6");
        reveal_strlit("7");
        reveal_strlit("8");
        reveal_strlit("9");
    }
        if d == 0 {
            "0"
        } else if d == 1 {
            "1"
        } else if d == 2 {
            "2"
        } else if d == 3 {
            "3"
        } else if d == 4 {
            "4"
        } else if d == 5 {
            "5"
        } else if d == 6 {
            "6"
        } else if d == 7 {
            "7"
        } else if d == 8 {
            "8"
        } else if d == 9 {
            "9"
    } else {
        "9"
    }
}

fn append_decimal(out: &mut String, n: usize)
    ensures
        final(out)@ == old(out)@ + decimal(n as nat),
    decreases n,
{
    if n >= 10 {
        append_decimal(out, n / 10);
    }
    out.append(digit_text(n % 10));
    assert(out@ =~= old(out)@ + decimal(n as nat));
}

/// The address of page `page` of the feed, twenty posts to a page, newest first.
pub fn get_request_url(page: usize) -> (r: String)
    ensures
        r@ == API_URL_PREFIX@ + decimal(page as nat) + API_URL_SUFFIX@,
{
    let mut url = String::from_str(API_URL_PREFIX);
    append_decimal(&mut url, page);
    url.append(API_URL_SUFFIX);
    url
}

} // verus!
