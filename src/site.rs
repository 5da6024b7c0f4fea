//! Site-wide context: the humans.txt text and the RSS channel header.
use vstd::prelude::*;
use vstd::string::StringExecFns;

verus! {

pub struct WebringContext {
    pub name: String,
    pub next: String,
    pub previous: String,
}

pub struct SiteContext {
    pub name: String,
    pub base_url: String,
    pub og_image: Option<String>,
    pub author_name: String,
    pub author_email: String,
    pub description: String,
    pub welcome_message: String,
    pub copyrights: String,
    /// Social site names with the author's link there, in display order.
    pub social: Vec<(String, String)>,
    pub webring: WebringContext,
    pub humans_txt: String,
    pub blog_engine_src: Option<String>,
    pub blog_src: Option<String>,
}

/// The upper-case form of a character, as one or more characters.
pub uninterp spec fn upper_of(c: char) -> Seq<char>;

/// Relies on `char::to_uppercase`, whose result depends on the character alone.
#[verifier::external_body]
fn upper(c: char) -> (r: String)
    ensures
        r@ == upper_of(c),
{
    c.to_uppercase().collect::<String>()
}

/// A name with its first character in upper case.
pub open spec fn capitalized(s: Seq<char>) -> Seq<char> {
    if s.len() == 0 {
        s
    } else {
        upper_of(s[0]) + s.subrange(1, s.len() as int)
    }
}

/// An address with each `@` written out as ` [at] `.
pub open spec fn at_replaced(s: Seq<char>) -> Seq<char>
    decreases s.len(),
{
    if s.len() == 0 {
        s
    } else {
        at_replaced(s.drop_last()) + if s.last() == '@' {
            " [at] "@
        } else {
            seq![s.last()]
        }
    }
}

/// The line of one social site.
pub open spec fn social_line(site: Seq<char>, link: Seq<char>, email: Seq<char>) -> Seq<char> {
    if site == "email"@ {
        "Email: "@ + at_replaced(email) + "\n"@
    } else {
        capitalized(site) + ": "@ + link + "\n"@
    }
}

pub open spec fn social_lines(s: Seq<(String, String)>, email: Seq<char>) -> Seq<char>
    decreases s.len(),
{
    if s.len() == 0 {
        Seq::empty()
    } else {
        social_lines(s.drop_last(), email) + social_line(s.last().0@, s.last().1@, email)
    }
}

/// The humans.txt text of a site.
pub open spec fn humans_text(c: SiteContext) -> Seq<char> {
    "/* TEAM */\n"@ + "Author: "@ + c.author_name@ + "\n"@ + social_lines(c.social@, c.author_email@)
        + match c.blog_engine_src {
        Some(s) => "\nSoftware sources: "@ + s@ + "\n"@,
        None => Seq::empty(),
    } + match c.blog_src {
        Some(s) => "Content sources: "@ + s@ + "\n"@,
        None => Seq::empty(),
    } + "\nLanguage: English\n"@
}

/// The channel header of the site's RSS feed.
pub open spec fn rss_channel(c: SiteContext) -> Seq<char> {
    "<title>"@ + c.name@ + "</title>"@ + "<link>"@ + c.base_url@ + "</link>"@ + "<description>"@
        + c.description@ + "</description>"@ + "<managingEditor>"@ + c.author_email@ + " ("@
        + c.author_name@ + ")</managingEditor>"@ + "<webMaster>"@ + c.author_email@ + " ("@
        + c.author_name@ + ")</webMaster>"@ + "<copyright>"@ + c.copyrights@ + "</copyright>"@
}

fn push_at_replaced(out: &mut String, s: &String)
    ensures
        final(out)@ == old(out)@ + at_replaced(s@),
{
    let n = s.as_str().unicode_len();
    let ghost start = out@;
    let mut i: usize = 0;
    while i < n
        invariant
            n == s@.len(),
            0 <= i <= n,
            out@ == start + at_replaced(s@.subrange(0, i as int)),
        decreases n - i,
    {
        let c = s.as_str().get_char(i);
        if c == '@' {
            out.append(" [at] ");
        } else {
            out.append(s.as_str().substring_char(i, i + 1));
        }
        proof {
            let t = s@.subrange(0, i + 1);
            assert(t.drop_last() =~= s@.subrange(0, i as int));
            assert(s@.subrange(i as int, i + 1) =~= seq![t.last()]);
        }
        assert(out@ =~= start + at_replaced(s@.subrange(0, i + 1)));
        i = i + 1;
    }
    assert(s@.subrange(0, n as int) =~= s@);
}

fn push_capitalized(out: &mut String, s: &String)
    ensures
        final(out)@ == old(out)@ + capitalized(s@),
{
    let n = s.as_str().unicode_len();
    if n == 0 {
        assert(out@ =~= old(out)@ + capitalized(s@));
        return;
    }
    let first = upper(s.as_str().get_char(0));
    out.append(first.as_str());
    out.append(s.as_str().substring_char(1, n));
    assert(out@ =~= old(out)@ + capitalized(s@));
}

impl SiteContext {
    /// The context with an Open Graph image.
    pub fn with_og_image(self, img_src: String) -> (r: SiteContext)
        ensures
            r == (SiteContext { og_image: Some(img_src), ..self }),
    {
        SiteContext { og_image: Some(img_src), ..self }
    }

    /// Writes the humans.txt text of the site.
    pub fn generate_humans_txt(&mut self)
        ensures
            final(self).humans_txt@ == humans_text(*old(self)),
            final(self).social == old(self).social,
            final(self).author_name == old(self).author_name,
            final(self).author_email == old(self).author_email,
            final(self).blog_engine_src == old(self).blog_engine_src,
            final(self).blog_src == old(self).blog_src,
    {
        let mut t = String::new();
        t.append("/* TEAM */\n");
        t.append("Author: ");
        t.append(self.author_name.as_str());
        t.append("\n");
        let ghost head = t@;
        let email_key = "email".to_owned();
        let mut i: usize = 0;
        while i < self.social.len()
            invariant
                0 <= i <= self.social@.len(),
                email_key@ == "email"@,
                t@ == head + social_lines(self.social@.subrange(0, i as int), self.author_email@),
            decreases self.social.len() - i,
        {
            let ghost before = t@;
            if self.social[i].0.eq(&email_key) {
                t.append("Email: ");
                push_at_replaced(&mut t, &self.author_email);
                t.append("\n");
            } else {
                push_capitalized(&mut t, &self.social[i].0);
                t.append(": ");
                t.append(self.social[i].1.as_str());
                t.append("\n");
            }
            proof {
                let s = self.social@.subrange(0, i + 1);
                assert(s.drop_last() =~= self.social@.subrange(0, i as int));
                assert(t@ =~= before + social_line(self.social@[i as int].0@, self.social@[i as int].1@, self.author_email@));
            }
            i = i + 1;
        }
        assert(self.social@.subrange(0, self.social@.len() as int) =~= self.social@);
        let ghost mid = t@;
        match &self.blog_engine_src {
            Some(s) => {
                t.append("\nSoftware sources: ");
                t.append(s.as_str());
                t.append("\n");
            },
            None => {},
        }
        let ghost mid2 = t@;
        match &self.blog_src {
            Some(s) => {
                t.append("Content sources: ");
                t.append(s.as_str());
                t.append("\n");
            },
            None => {},
        }
        let ghost mid3 = t@;
        t.append("\nLanguage: English\n");
        assert(t@ =~= humans_text(*self));
        self.humans_txt = t;
    }

    /// Appends the channel header of the RSS feed.
    pub fn to_rss_feed(&self, xml: &mut String)
        ensures
            final(xml)@ == old(xml)@ + rss_channel(*self),
    {
        xml.append("<title>");
        xml.append(self.name.as_str());
        xml.append("</title>");
        xml.append("<link>");
        xml.append(self.base_url.as_str());
        xml.append("</link>");
        xml.append("<description>");
        xml.append(self.description.as_str());
        xml.append("</description>");
        xml.append("<managingEditor>");
        xml.append(self.author_email.as_str());
        xml.append(" (");
        xml.append(self.author_name.as_str());
        xml.append(")</managingEditor>");
        xml.append("<webMaster>");
        xml.append(self.author_email.as_str());
        xml.append(" (");
        xml.append(self.author_name.as_str());
        xml.append(")</webMaster>");
        xml.append("<copyright>");
        xml.append(self.copyrights.as_str());
        xml.append("</copyright>");
        assert(xml@ =~= old(xml)@ + rss_channel(*self));
    }
}

} // verus!
