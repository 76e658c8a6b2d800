use openobserve::ldap::{
    group_names_from_entries, LdapAuthentication, LdapCustomError, LdapEntry,
};

fn auth() -> LdapAuthentication {
    LdapAuthentication::new(
        "ldap://localhost:389".to_string(),
        "cn=admin,dc=zinclabs,dc=com".to_string(),
        "admin".to_string(),
        "ou=users,dc=zinclabs,dc=com".to_string(),
        "(&(objectClass=inetOrgPerson)(uid={id}))".to_string(),
        "(&(objectClass=groupOfUniqueNames)(uniqueMember={id}))".to_string(),
        "ou=teams,dc=zinclabs,dc=com".to_string(),
        Some("mail".to_string()),
        Some("givenName".to_string()),
        Some("sn".to_string()),
    )
}

fn entry(dn: &str, attrs: Vec<(&str, Vec<&str>)>) -> LdapEntry {
    LdapEntry {
        dn: dn.to_string(),
        attrs: attrs
            .into_iter()
            .map(|(name, values)| {
                (
                    name.to_string(),
                    values.into_iter().map(|v| v.to_string()).collect(),
                )
            })
            .collect(),
    }
}

#[test]
fn new_keeps_every_field() {
    let a = auth();
    assert_eq!(a.url, "ldap://localhost:389");
    assert_eq!(a.bind_dn, "cn=admin,dc=zinclabs,dc=com");
    assert_eq!(a.bind_password, "admin");
    assert_eq!(a.user_search_base, "ou=users,dc=zinclabs,dc=com");
    assert_eq!(a.user_search_filter, "(&(objectClass=inetOrgPerson)(uid={id}))");
    assert_eq!(
        a.group_search_filter,
        "(&(objectClass=groupOfUniqueNames)(uniqueMember={id}))"
    );
    assert_eq!(a.group_search_base, "ou=teams,dc=zinclabs,dc=com");
    assert_eq!(a.email_attribute.as_deref(), Some("mail"));
    assert_eq!(a.first_name_attribute.as_deref(), Some("givenName"));
    assert_eq!(a.last_name_attribute.as_deref(), Some("sn"));
    assert!(a.username_attribute.is_none());
}

#[test]
fn templates_render_the_id_key() {
    let a = auth();
    let filter = a.parse_templates(&a.user_search_filter, "user3").unwrap();
    assert_eq!(filter, "(&(objectClass=inetOrgPerson)(uid=user3))");
    let group_filter = a
        .parse_templates(&a.group_search_filter, "uid=user3,ou=users,dc=zinclabs,dc=com")
        .unwrap();
    assert_eq!(
        group_filter,
        "(&(objectClass=groupOfUniqueNames)(uniqueMember=uid=user3,ou=users,dc=zinclabs,dc=com))"
    );
}

#[test]
fn template_parse_failure_is_reported() {
    let a = auth();
    let err = a.parse_templates("unbalanced {", "x").unwrap_err();
    assert_eq!(err, LdapCustomError::TemplateError);
}

#[test]
fn bind_credentials_choose_the_right_pair() {
    let a = auth();
    let (user, pass) = a.bind_credentials("user3", "secret", false);
    assert_eq!((user, pass), ("user3", "secret"));
    let (user, pass) = a.bind_credentials("user3", "secret", true);
    assert_eq!((user, pass), ("cn=admin,dc=zinclabs,dc=com", "admin"));
}

#[test]
fn attribute_lookup_takes_the_first_value() {
    let a = auth();
    let e = entry(
        "uid=user3,ou=users,dc=zinclabs,dc=com",
        vec![("mail", vec!["user3@zinclabs.com", "alt@zinclabs.com"])],
    );
    let v = a.get_attribute_from_entry(&e, "mail").unwrap();
    assert_eq!(v, "user3@zinclabs.com");
}

#[test]
fn missing_attribute_is_an_error() {
    let a = auth();
    let e = entry("uid=user3", vec![("mail", vec![])]);
    let err = a.get_attribute_from_entry(&e, "mail").unwrap_err();
    assert_eq!(err, LdapCustomError::AttributeNotFound("mail".to_string()));
    let err = a.get_attribute_from_entry(&e, "sn").unwrap_err();
    assert_eq!(err, LdapCustomError::AttributeNotFound("sn".to_string()));
}

#[test]
fn one_entry_becomes_a_user() {
    let a = auth();
    let e = entry(
        "uid=user3,ou=users,dc=zinclabs,dc=com",
        vec![
            ("mail", vec!["user3@zinclabs.com"]),
            ("givenName", vec!["User"]),
            ("sn", vec!["Three"]),
        ],
    );
    let user = a.user_from_entries(&vec![e], "user3").unwrap();
    assert_eq!(user.dn, "uid=user3,ou=users,dc=zinclabs,dc=com");
    assert_eq!(user.username, "user3");
    assert!(user.groups.is_empty());
    assert_eq!(user.attributes.email, "user3@zinclabs.com");
    assert_eq!(user.attributes.firstname, "User");
    assert_eq!(user.attributes.lastname, "Three");
}

#[test]
fn missing_attributes_default_to_empty() {
    let a = auth();
    let e = entry("uid=user4,ou=users,dc=zinclabs,dc=com", vec![]);
    let user = a.user_from_entries(&vec![e], "user4").unwrap();
    assert_eq!(user.attributes.email, "");
    assert_eq!(user.attributes.firstname, "");
    assert_eq!(user.attributes.lastname, "");
}

#[test]
fn no_entries_means_user_not_found() {
    let a = auth();
    let err = a.user_from_entries(&vec![], "user3").unwrap_err();
    assert_eq!(err, LdapCustomError::UserNotFound);
}

#[test]
fn several_entries_mean_multiple_users() {
    let a = auth();
    let entries = vec![entry("uid=a", vec![]), entry("uid=b", vec![])];
    let err = a.user_from_entries(&entries, "user3").unwrap_err();
    assert_eq!(err, LdapCustomError::MultipleUsersFound);
}

#[test]
fn empty_dn_means_user_not_found() {
    let a = auth();
    let err = a
        .user_from_entries(&vec![entry("", vec![])], "user3")
        .unwrap_err();
    assert_eq!(err, LdapCustomError::UserNotFound);
}

#[test]
fn group_names_are_the_entry_dns() {
    let entries = vec![
        entry("cn=team-a,ou=teams,dc=zinclabs,dc=com", vec![]),
        entry("cn=team-b,ou=teams,dc=zinclabs,dc=com", vec![]),
    ];
    let names = group_names_from_entries(&entries);
    assert_eq!(
        names,
        vec![
            "cn=team-a,ou=teams,dc=zinclabs,dc=com".to_string(),
            "cn=team-b,ou=teams,dc=zinclabs,dc=com".to_string(),
        ]
    );
}
