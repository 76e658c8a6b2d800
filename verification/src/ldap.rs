use vstd::prelude::*;

verus! {

// Directory-backed authentication: the connection, bind and search calls
// live outside the library, which keeps the parts that only compute — the
// search-filter rendering, the choice of bind credentials, and the
// distillation of returned entries into a user record.

/// The errors the directory helpers report: a filter template that does not
/// render, a missing attribute (carrying its name), no matching user, or
/// more than one.
#[derive(Debug, Clone, PartialEq, Eq)]
pub enum LdapCustomError {
    TemplateError,
    AttributeNotFound(String),
    UserNotFound,
    MultipleUsersFound,
}

/// Connection settings and search configuration of the directory backend.
#[derive(Debug)]
pub struct LdapAuthentication {
    /// Base URL of the LDAP server.
    pub url: String,
    pub bind_dn: String,
    pub bind_password: String,
    pub user_search_base: String,
    pub user_search_filter: String,
    pub group_search_filter: String,
    pub group_search_base: String,
    pub username_attribute: Option<String>,
    pub first_name_attribute: Option<String>,
    pub last_name_attribute: Option<String>,
    pub email_attribute: Option<String>,
}

#[derive(Debug)]
pub struct LdapUserAttributes {
    pub email: String,
    pub firstname: String,
    pub lastname: String,
}

#[derive(Debug)]
pub struct LdapUser {
    pub dn: String,
    /// The username which will be fetched based on an attribute.
    pub username: String,
    pub groups: Vec<String>,
    pub attributes: LdapUserAttributes,
}

/// One entry as the directory returns it: its distinguished name and its
/// attributes, each name carrying the list of values the directory holds
/// for it.
#[derive(Debug)]
pub struct LdapEntry {
    pub dn: String,
    pub attrs: Vec<(String, Vec<String>)>,
}

/// The value list of the first attribute with the given name, if any.
pub open spec fn attr_lookup(attrs: Seq<(String, Vec<String>)>, name: Seq<char>) -> Option<
    Vec<String>,
>
    decreases attrs.len(),
{
    if attrs.len() == 0 {
        None
    } else if attrs[0].0@ == name {
        Some(attrs[0].1)
    } else {
        attr_lookup(attrs.drop_first(), name)
    }
}

/// The first value of the named attribute, or the empty string when the
/// attribute is missing or has no values.
pub open spec fn attr_or_empty(attrs: Seq<(String, Vec<String>)>, name: Seq<char>) -> Seq<char> {
    match attr_lookup(attrs, name) {
        Some(vals) => if vals@.len() > 0 {
            vals@[0]@
        } else {
            Seq::empty()
        },
        None => Seq::empty(),
    }
}

/// The attribute name an optional configuration field selects, with its
/// fallback.
pub open spec fn chosen_attr(configured: Option<String>, fallback: Seq<char>) -> Seq<char> {
    match configured {
        Some(name) => name@,
        None => fallback,
    }
}

/// What rendering a filter template with leon yields for a given `id`
/// value; `None` stands for a parse or render failure.
pub uninterp spec fn rendered_of(template: Seq<char>, id_value: Seq<char>) -> Option<Seq<char>>;

/// Relies on leon's `Template::parse` and `Template::render`: parsing a
/// template and substituting the `id` key is a function of the two strings
/// alone, failing exactly when the template does not parse or names a key
/// other than `id`.
#[verifier::external_body]
fn render_id_template(query: &str, id_value: &str) -> (r: Option<String>)
    ensures
        match r {
            Some(s) => rendered_of(query@, id_value@) == Some(s@),
            None => rendered_of(query@, id_value@) is None,
        },
{
    let template = match leon::Template::parse(query) {
        Ok(t) => t,
        Err(_) => return None,
    };
    match template.render(&[("id", id_value)]) {
        Ok(s) => Some(s),
        Err(_) => None,
    }
}

impl LdapAuthentication {
    pub fn new(
        url: String,
        bind_dn: String,
        bind_password: String,
        user_search_base: String,
        user_search_filter: String,
        group_search_filter: String,
        group_search_base: String,
        email_attribute: Option<String>,
        first_name_attribute: Option<String>,
        last_name_attribute: Option<String>,
    ) -> (r: LdapAuthentication)
        ensures
            r.url == url,
            r.bind_dn == bind_dn,
            r.bind_password == bind_password,
            r.user_search_base == user_search_base,
            r.user_search_filter == user_search_filter,
            r.group_search_filter == group_search_filter,
            r.group_search_base == group_search_base,
            r.email_attribute == email_attribute,
            r.first_name_attribute == first_name_attribute,
            r.last_name_attribute == last_name_attribute,
            r.username_attribute is None,
    {
        LdapAuthentication {
            url,
            bind_dn,
            bind_password,
            user_search_base,
            user_search_filter,
            group_search_filter,
            group_search_base,
            username_attribute: None,
            email_attribute,
            first_name_attribute,
            last_name_attribute,
        }
    }

    /// Renders a search-filter template, substituting the caller's value
    /// for the template's `id` key. The template is expected to have an
    /// `id` placeholder.
    pub fn parse_templates(&self, query: &str, id_value: &str) -> (r: Result<
        String,
        LdapCustomError,
    >)
        ensures
            match r {
                Ok(s) => rendered_of(query@, id_value@) == Some(s@),
                Err(e) => rendered_of(query@, id_value@) is None && e
                    == LdapCustomError::TemplateError,
            },
    {
        match render_id_template(query, id_value) {
            Some(s) => Ok(s),
            None => Err(LdapCustomError::TemplateError),
        }
    }

    /// The credentials a bind should present: the configured bind DN and
    /// password when asked for, the caller's username and password
    /// otherwise.
    pub fn bind_credentials<'a>(
        &'a self,
        username: &'a str,
        password: &'a str,
        use_bind_dn: bool,
    ) -> (r: (&'a str, &'a str))
        ensures
            use_bind_dn ==> r.0@ == self.bind_dn@ && r.1@ == self.bind_password@,
            !use_bind_dn ==> r.0@ == username@ && r.1@ == password@,
    {
        if use_bind_dn {
            (self.bind_dn.as_str(), self.bind_password.as_str())
        } else {
            (username, password)
        }
    }

    /// The first value of the named attribute of an entry, or
    /// `AttributeNotFound` naming the attribute when the entry has no such
    /// attribute or no value for it.
    pub fn get_attribute_from_entry(&self, entry: &LdapEntry, attribute: &str) -> (r: Result<
        String,
        LdapCustomError,
    >)
        ensures
            match r {
                Ok(v) => {
                    &&& v@ == attr_or_empty(entry.attrs@, attribute@)
                    &&& (attr_lookup(entry.attrs@, attribute@) matches Some(vals) && vals@.len()
                        > 0)
                },
                Err(e) => {
                    &&& (e matches LdapCustomError::AttributeNotFound(name) && name@ == attribute@)
                    &&& match attr_lookup(entry.attrs@, attribute@) {
                        Some(vals) => vals@.len() == 0,
                        None => true,
                    }
                },
            },
    {
        let mut i: usize = 0;
        let ghost attrs = entry.attrs@;
        proof {
            assert(attrs.skip(0) =~= attrs);
        }
        while i < entry.attrs.len()
            invariant
                i <= attrs.len(),
                entry.attrs@ == attrs,
                attr_lookup(attrs.skip(i as int), attribute@) == attr_lookup(attrs, attribute@),
            decreases attrs.len() - i,
        {
            proof {
                assert(attrs.skip(i as int).drop_first() =~= attrs.skip(i as int + 1));
            }
            if crate::strutil::str_eq(entry.attrs[i].0.as_str(), attribute) {
                proof {
                    assert(attrs.skip(i as int)[0] == attrs[i as int]);
                }
                if entry.attrs[i].1.len() > 0 {
                    return Ok(entry.attrs[i].1[0].clone());
                } else {
                    return Err(LdapCustomError::AttributeNotFound(attribute.to_owned()));
                }
            }
            proof {
                assert(attrs.skip(i as int)[0] == attrs[i as int]);
            }
            i = i + 1;
        }
        proof {
            assert(attrs.skip(i as int) =~= Seq::<(String, Vec<String>)>::empty());
        }
        Err(LdapCustomError::AttributeNotFound(attribute.to_owned()))
    }

    /// Distils the entries a user search returned into a user record:
    /// exactly one entry with a nonempty DN is accepted; its email, first
    /// and last name are read from the configured attributes (or `mail`,
    /// `givenName` and `sn`), defaulting to empty strings when absent. No
    /// entry, several entries, or an empty DN are rejected.
    pub fn user_from_entries(&self, entries: &Vec<LdapEntry>, username: &str) -> (r: Result<
        LdapUser,
        LdapCustomError,
    >)
        ensures
            match r {
                Ok(u) => {
                    &&& entries@.len() == 1
                    &&& entries@[0].dn@.len() > 0
                    &&& u.dn@ == entries@[0].dn@
                    &&& u.username@ == username@
                    &&& u.groups@.len() == 0
                    &&& u.attributes.email@ == attr_or_empty(
                        entries@[0].attrs@,
                        chosen_attr(self.email_attribute, "mail"@),
                    )
                    &&& u.attributes.firstname@ == attr_or_empty(
                        entries@[0].attrs@,
                        chosen_attr(self.first_name_attribute, "givenName"@),
                    )
                    &&& u.attributes.lastname@ == attr_or_empty(
                        entries@[0].attrs@,
                        chosen_attr(self.last_name_attribute, "sn"@),
                    )
                },
                Err(LdapCustomError::UserNotFound) => entries@.len() == 0 || (entries@.len() == 1
                    && entries@[0].dn@.len() == 0),
                Err(LdapCustomError::MultipleUsersFound) => entries@.len() > 1,
                Err(_) => false,
            },
    {
        if entries.len() == 0 {
            return Err(LdapCustomError::UserNotFound);
        }
        if entries.len() > 1 {
            return Err(LdapCustomError::MultipleUsersFound);
        }
        let entry = &entries[0];
        if entry.dn.as_str().is_empty() {
            return Err(LdapCustomError::UserNotFound);
        }
        let email_attribute = match &self.email_attribute {
            Some(name) => name.clone(),
            None => "mail".to_owned(),
        };
        let first_name_attribute = match &self.first_name_attribute {
            Some(name) => name.clone(),
            None => "givenName".to_owned(),
        };
        let last_name_attribute = match &self.last_name_attribute {
            Some(name) => name.clone(),
            None => "sn".to_owned(),
        };
        let email = match self.get_attribute_from_entry(entry, email_attribute.as_str()) {
            Ok(v) => v,
            Err(_) => String::new(),
        };
        let firstname = match self.get_attribute_from_entry(entry, first_name_attribute.as_str()) {
            Ok(v) => v,
            Err(_) => String::new(),
        };
        let lastname = match self.get_attribute_from_entry(entry, last_name_attribute.as_str()) {
            Ok(v) => v,
            Err(_) => String::new(),
        };
        Ok(
            LdapUser {
                dn: entry.dn.clone(),
                username: username.to_owned(),
                groups: Vec::new(),
                attributes: LdapUserAttributes { email, firstname, lastname },
            },
        )
    }
}

/// The group names a group search yields: the distinguished name of each
/// returned entry, in order.
pub fn group_names_from_entries(entries: &Vec<LdapEntry>) -> (r: Vec<String>)
    ensures
        r@.len() == entries@.len(),
        forall|i: int| 0 <= i < r@.len() ==> r@[i]@ == entries@[i].dn@,
{
    let mut r: Vec<String> = Vec::new();
    let mut i: usize = 0;
    while i < entries.len()
        invariant
            i <= entries@.len(),
            r@.len() == i,
            forall|j: int| 0 <= j < i ==> r@[j]@ == entries@[j].dn@,
        decreases entries@.len() - i,
    {
        r.push(entries[i].dn.clone());
        i = i + 1;
    }
    r
}

} // verus!
